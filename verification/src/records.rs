//! The records that the tracker keeps and shows, and what they hold as plain
//! mathematical values.

use vstd::prelude::*;
use crate::lists::models;
use crate::text::{opt_text, same_opt_text, same_text};

verus! {

/// A task that time is recorded against.
#[derive(Debug)]
pub struct Task {
    pub id: i64,
    pub name: String,
    pub github_kind: Option<String>,
    pub github_reference: Option<String>,
    pub github_state: Option<String>,
    /// When the state on GitHub was last asked for.
    pub github_checked_at: Option<String>,
    /// When the task was closed; an open task has none.
    pub closed_at: Option<String>,
    pub created_at: String,
    pub updated_at: String,
}

/// What a [`Task`] holds.
#[verifier::ext_equal]
pub struct TaskModel {
    pub id: i64,
    pub name: Seq<char>,
    pub github_kind: Option<Seq<char>>,
    pub github_reference: Option<Seq<char>>,
    pub github_state: Option<Seq<char>>,
    pub github_checked_at: Option<Seq<char>>,
    pub closed_at: Option<Seq<char>>,
    pub created_at: Seq<char>,
    pub updated_at: Seq<char>,
}

impl View for Task {
    type V = TaskModel;

    open spec fn view(&self) -> TaskModel {
        TaskModel {
            id: self.id,
            name: self.name@,
            github_kind: opt_text(self.github_kind),
            github_reference: opt_text(self.github_reference),
            github_state: opt_text(self.github_state),
            github_checked_at: opt_text(self.github_checked_at),
            closed_at: opt_text(self.closed_at),
            created_at: self.created_at@,
            updated_at: self.updated_at@,
        }
    }
}

impl Clone for Task {
    fn clone(&self) -> (result: Self)
        ensures
            result == *self,
    {
        Task {
            id: self.id,
            name: self.name.clone(),
            github_kind: self.github_kind.clone(),
            github_reference: self.github_reference.clone(),
            github_state: self.github_state.clone(),
            github_checked_at: self.github_checked_at.clone(),
            closed_at: self.closed_at.clone(),
            created_at: self.created_at.clone(),
            updated_at: self.updated_at.clone(),
        }
    }
}

/// A subtask as it is stored: shared by every task, and told apart by its key.
#[derive(Debug)]
pub struct SubtaskRow {
    pub id: i64,
    pub name: String,
    /// The form of the name that no other subtask has.
    pub name_key: String,
    /// When the subtask was archived; one in use has none.
    pub archived_at: Option<String>,
    pub created_at: String,
}

/// What a [`SubtaskRow`] holds.
#[verifier::ext_equal]
pub struct SubtaskRowModel {
    pub id: i64,
    pub name: Seq<char>,
    pub name_key: Seq<char>,
    pub archived_at: Option<Seq<char>>,
    pub created_at: Seq<char>,
}

impl View for SubtaskRow {
    type V = SubtaskRowModel;

    open spec fn view(&self) -> SubtaskRowModel {
        SubtaskRowModel {
            id: self.id,
            name: self.name@,
            name_key: self.name_key@,
            archived_at: opt_text(self.archived_at),
            created_at: self.created_at@,
        }
    }
}

impl Clone for SubtaskRow {
    fn clone(&self) -> (result: Self)
        ensures
            result == *self,
    {
        SubtaskRow {
            id: self.id,
            name: self.name.clone(),
            name_key: self.name_key.clone(),
            archived_at: self.archived_at.clone(),
            created_at: self.created_at.clone(),
        }
    }
}

/// A stretch of time recorded against a task.
#[derive(Debug)]
pub struct TimeEntry {
    pub id: i64,
    pub task_id: i64,
    pub subtask_id: Option<i64>,
    pub started_at: String,
    /// When the entry ended; one that still runs has none.
    pub ended_at: Option<String>,
    pub note: Option<String>,
}

/// What a [`TimeEntry`] holds.
#[verifier::ext_equal]
pub struct TimeEntryModel {
    pub id: i64,
    pub task_id: i64,
    pub subtask_id: Option<i64>,
    pub started_at: Seq<char>,
    pub ended_at: Option<Seq<char>>,
    pub note: Option<Seq<char>>,
}

impl View for TimeEntry {
    type V = TimeEntryModel;

    open spec fn view(&self) -> TimeEntryModel {
        TimeEntryModel {
            id: self.id,
            task_id: self.task_id,
            subtask_id: self.subtask_id,
            started_at: self.started_at@,
            ended_at: opt_text(self.ended_at),
            note: opt_text(self.note),
        }
    }
}

impl Clone for TimeEntry {
    fn clone(&self) -> (result: Self)
        ensures
            result == *self,
    {
        TimeEntry {
            id: self.id,
            task_id: self.task_id,
            subtask_id: self.subtask_id,
            started_at: self.started_at.clone(),
            ended_at: self.ended_at.clone(),
            note: self.note.clone(),
        }
    }
}

/// A subtask, shared across every task.
#[derive(Debug)]
pub struct Subtask {
    pub id: i64,
    pub name: String,
    pub archived_at: Option<String>,
    pub created_at: String,
}

/// What a [`Subtask`] holds.
#[verifier::ext_equal]
pub struct SubtaskModel {
    pub id: i64,
    pub name: Seq<char>,
    pub archived_at: Option<Seq<char>>,
    pub created_at: Seq<char>,
}

impl View for Subtask {
    type V = SubtaskModel;

    open spec fn view(&self) -> SubtaskModel {
        SubtaskModel {
            id: self.id,
            name: self.name@,
            archived_at: opt_text(self.archived_at),
            created_at: self.created_at@,
        }
    }
}

impl Clone for Subtask {
    fn clone(&self) -> (result: Self)
        ensures
            result == *self,
    {
        Subtask {
            id: self.id,
            name: self.name.clone(),
            archived_at: self.archived_at.clone(),
            created_at: self.created_at.clone(),
        }
    }
}

/// A subtask together with how much it has been used.
#[derive(Debug)]
pub struct SubtaskView {
    pub id: i64,
    pub name: String,
    pub archived_at: Option<String>,
    pub created_at: String,
    pub entry_count: i64,
    pub total_seconds: i64,
}

/// What a [`SubtaskView`] holds.
#[verifier::ext_equal]
pub struct SubtaskViewModel {
    pub id: i64,
    pub name: Seq<char>,
    pub archived_at: Option<Seq<char>>,
    pub created_at: Seq<char>,
    pub entry_count: i64,
    pub total_seconds: i64,
}

impl View for SubtaskView {
    type V = SubtaskViewModel;

    open spec fn view(&self) -> SubtaskViewModel {
        SubtaskViewModel {
            id: self.id,
            name: self.name@,
            archived_at: opt_text(self.archived_at),
            created_at: self.created_at@,
            entry_count: self.entry_count,
            total_seconds: self.total_seconds,
        }
    }
}

impl Clone for SubtaskView {
    fn clone(&self) -> (result: Self)
        ensures
            result == *self,
    {
        SubtaskView {
            id: self.id,
            name: self.name.clone(),
            archived_at: self.archived_at.clone(),
            created_at: self.created_at.clone(),
            entry_count: self.entry_count,
            total_seconds: self.total_seconds,
        }
    }
}

/// An entry together with the names it refers to and how long it lasts.
#[derive(Debug)]
pub struct TimeEntryView {
    pub id: i64,
    pub task_id: i64,
    pub task_name: String,
    pub subtask_id: Option<i64>,
    pub subtask_name: Option<String>,
    pub github_kind: Option<String>,
    pub github_reference: Option<String>,
    pub started_at: String,
    pub ended_at: Option<String>,
    pub duration_seconds: i64,
    pub note: Option<String>,
}

/// What a [`TimeEntryView`] holds.
#[verifier::ext_equal]
pub struct TimeEntryViewModel {
    pub id: i64,
    pub task_id: i64,
    pub task_name: Seq<char>,
    pub subtask_id: Option<i64>,
    pub subtask_name: Option<Seq<char>>,
    pub github_kind: Option<Seq<char>>,
    pub github_reference: Option<Seq<char>>,
    pub started_at: Seq<char>,
    pub ended_at: Option<Seq<char>>,
    pub duration_seconds: i64,
    pub note: Option<Seq<char>>,
}

impl View for TimeEntryView {
    type V = TimeEntryViewModel;

    open spec fn view(&self) -> TimeEntryViewModel {
        TimeEntryViewModel {
            id: self.id,
            task_id: self.task_id,
            task_name: self.task_name@,
            subtask_id: self.subtask_id,
            subtask_name: opt_text(self.subtask_name),
            github_kind: opt_text(self.github_kind),
            github_reference: opt_text(self.github_reference),
            started_at: self.started_at@,
            ended_at: opt_text(self.ended_at),
            duration_seconds: self.duration_seconds,
            note: opt_text(self.note),
        }
    }
}

/// Time spent on a task, or on a task under one subtask.
#[derive(Debug)]
pub struct SummaryRow {
    pub task_id: i64,
    pub task_name: String,
    pub subtask_id: Option<i64>,
    pub subtask_name: Option<String>,
    pub github_kind: Option<String>,
    pub github_reference: Option<String>,
    pub total_seconds: i64,
    pub entry_count: i64,
}

/// What a [`SummaryRow`] holds.
#[verifier::ext_equal]
pub struct SummaryModel {
    pub task_id: i64,
    pub task_name: Seq<char>,
    pub subtask_id: Option<i64>,
    pub subtask_name: Option<Seq<char>>,
    pub github_kind: Option<Seq<char>>,
    pub github_reference: Option<Seq<char>>,
    pub total_seconds: i64,
    pub entry_count: i64,
}

impl View for SummaryRow {
    type V = SummaryModel;

    open spec fn view(&self) -> SummaryModel {
        SummaryModel {
            task_id: self.task_id,
            task_name: self.task_name@,
            subtask_id: self.subtask_id,
            subtask_name: opt_text(self.subtask_name),
            github_kind: opt_text(self.github_kind),
            github_reference: opt_text(self.github_reference),
            total_seconds: self.total_seconds,
            entry_count: self.entry_count,
        }
    }
}

/// Time spent on a subtask across every task.
#[derive(Debug)]
pub struct SubtaskSummaryRow {
    pub subtask_id: Option<i64>,
    pub subtask_name: Option<String>,
    pub task_count: i64,
    pub total_seconds: i64,
    pub entry_count: i64,
}

/// What a [`SubtaskSummaryRow`] holds.
#[verifier::ext_equal]
pub struct SubtaskSummaryModel {
    pub subtask_id: Option<i64>,
    pub subtask_name: Option<Seq<char>>,
    pub task_count: i64,
    pub total_seconds: i64,
    pub entry_count: i64,
}

impl View for SubtaskSummaryRow {
    type V = SubtaskSummaryModel;

    open spec fn view(&self) -> SubtaskSummaryModel {
        SubtaskSummaryModel {
            subtask_id: self.subtask_id,
            subtask_name: opt_text(self.subtask_name),
            task_count: self.task_count,
            total_seconds: self.total_seconds,
            entry_count: self.entry_count,
        }
    }
}

impl Task {
    /// Whether two tasks hold the same.
    pub fn same(&self, other: &Task) -> (result: bool)
        ensures
            result == (self@ == other@),
    {
        self.id == other.id
            && same_text(self.name.as_str(), other.name.as_str())
            && same_opt_text(&self.github_kind, &other.github_kind)
            && same_opt_text(&self.github_reference, &other.github_reference)
            && same_opt_text(&self.github_state, &other.github_state)
            && same_opt_text(&self.github_checked_at, &other.github_checked_at)
            && same_opt_text(&self.closed_at, &other.closed_at)
            && same_text(self.created_at.as_str(), other.created_at.as_str())
            && same_text(self.updated_at.as_str(), other.updated_at.as_str())
    }
}

impl SubtaskRow {
    /// Whether two subtasks hold the same.
    pub fn same(&self, other: &SubtaskRow) -> (result: bool)
        ensures
            result == (self@ == other@),
    {
        self.id == other.id
            && same_text(self.name.as_str(), other.name.as_str())
            && same_text(self.name_key.as_str(), other.name_key.as_str())
            && same_opt_text(&self.archived_at, &other.archived_at)
            && same_text(self.created_at.as_str(), other.created_at.as_str())
    }
}

impl TimeEntry {
    /// Whether two entries hold the same.
    pub fn same(&self, other: &TimeEntry) -> (result: bool)
        ensures
            result == (self@ == other@),
    {
        self.id == other.id
            && self.task_id == other.task_id
            && self.subtask_id == other.subtask_id
            && same_text(self.started_at.as_str(), other.started_at.as_str())
            && same_opt_text(&self.ended_at, &other.ended_at)
            && same_opt_text(&self.note, &other.note)
    }
}

impl SubtaskRow {
    /// The subtask as it is shown.
    pub fn shown(&self) -> (result: Subtask)
        ensures
            result@ == self@.shown(),
    {
        Subtask {
            id: self.id,
            name: self.name.clone(),
            archived_at: self.archived_at.clone(),
            created_at: self.created_at.clone(),
        }
    }
}

impl SubtaskRowModel {
    /// The subtask as it is shown.
    pub open spec fn shown(self) -> SubtaskModel {
        SubtaskModel {
            id: self.id,
            name: self.name,
            archived_at: self.archived_at,
            created_at: self.created_at,
        }
    }
}

/// A task alongside the subtasks already recorded against it, most recently used
/// first.
#[derive(Debug)]
pub struct TaskWithSubtasks {
    pub task: Task,
    pub subtasks: Vec<Subtask>,
}

/// What a [`TaskWithSubtasks`] holds.
#[verifier::ext_equal]
pub struct TaskWithSubtasksModel {
    pub task: TaskModel,
    pub subtasks: Seq<SubtaskModel>,
}

impl View for TaskWithSubtasks {
    type V = TaskWithSubtasksModel;

    open spec fn view(&self) -> TaskWithSubtasksModel {
        TaskWithSubtasksModel { task: self.task@, subtasks: models(self.subtasks@) }
    }
}

/// A timer that runs.
#[derive(Debug)]
pub struct ActiveTimer {
    pub entry_id: i64,
    pub task: Task,
    pub subtask: Option<Subtask>,
    pub started_at: String,
    pub elapsed_seconds: i64,
    pub note: Option<String>,
}

/// What an [`ActiveTimer`] holds.
#[verifier::ext_equal]
pub struct ActiveTimerModel {
    pub entry_id: i64,
    pub task: TaskModel,
    pub subtask: Option<SubtaskModel>,
    pub started_at: Seq<char>,
    pub elapsed_seconds: i64,
    pub note: Option<Seq<char>>,
}

impl View for ActiveTimer {
    type V = ActiveTimerModel;

    open spec fn view(&self) -> ActiveTimerModel {
        ActiveTimerModel {
            entry_id: self.entry_id,
            task: self.task@,
            subtask: opt_subtask(self.subtask),
            started_at: self.started_at@,
            elapsed_seconds: self.elapsed_seconds,
            note: opt_text(self.note),
        }
    }
}

/// What an optional subtask holds.
pub open spec fn opt_subtask(subtask: Option<Subtask>) -> Option<SubtaskModel> {
    match subtask {
        Some(subtask) => Some(subtask@),
        None => None,
    }
}

/// What a user says about a task.
#[derive(Debug)]
pub struct TaskInput {
    pub name: String,
    pub github_kind: Option<String>,
    pub github_reference: Option<String>,
    pub github_state: Option<String>,
}

/// What a [`TaskInput`] holds.
#[verifier::ext_equal]
pub struct TaskInputModel {
    pub name: Seq<char>,
    pub github_kind: Option<Seq<char>>,
    pub github_reference: Option<Seq<char>>,
    pub github_state: Option<Seq<char>>,
}

impl View for TaskInput {
    type V = TaskInputModel;

    open spec fn view(&self) -> TaskInputModel {
        TaskInputModel {
            name: self.name@,
            github_kind: opt_text(self.github_kind),
            github_reference: opt_text(self.github_reference),
            github_state: opt_text(self.github_state),
        }
    }
}

/// What a user says to start a timer.
#[derive(Debug)]
pub struct StartTimerInput {
    pub task: TaskInput,
    pub subtask_name: Option<String>,
    pub note: Option<String>,
}

/// Which entry gets which subtask; none takes the subtask away.
#[derive(Debug)]
pub struct UpdateEntrySubtaskInput {
    pub entry_id: i64,
    pub subtask_name: Option<String>,
}

/// Which task is to be closed.
#[derive(Debug)]
pub struct CloseTaskInput {
    pub task_id: i64,
}

/// The name of a subtask to be created.
#[derive(Debug)]
pub struct CreateSubtaskInput {
    pub name: String,
}

/// Which subtask gets which name.
#[derive(Debug)]
pub struct RenameSubtaskInput {
    pub subtask_id: i64,
    pub name: String,
}

/// Which subtask is to be archived or restored.
#[derive(Debug)]
pub struct SetSubtaskArchivedInput {
    pub subtask_id: i64,
    pub archived: bool,
}

} // verus!
