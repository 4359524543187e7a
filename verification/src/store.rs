//! The tables that the tracker keeps, and the steps that every request is made
//! of.

use vstd::prelude::*;
use crate::error::{DatabaseFault, TrackerError};
use crate::lists::{
    find_by, models, models_of_push, models_of_update, position, position_is_the_first,
};
use crate::names::{
    normalize_optional, normalize_required, normalize_subtask_name, optional_name,
    stored_names_are_stable, subtask_key, subtask_name, subtask_name_key,
};
use crate::records::{
    Subtask, SubtaskModel, SubtaskRow, SubtaskRowModel, Task, TaskInput, TaskInputModel, TaskModel,
    TimeEntry, TimeEntryModel,
};
use crate::text::{same_text, trimmed};

verus! {

/// The tracker's tables. Rows stand in the order in which they were added, which
/// is that of their identifiers; identifiers are never given out twice.
#[derive(Debug)]
pub struct Store {
    pub tasks: Vec<Task>,
    pub subtasks: Vec<SubtaskRow>,
    pub entries: Vec<TimeEntry>,
    /// The last identifier given to a task.
    pub last_task_id: i64,
    /// The last identifier given to a subtask.
    pub last_subtask_id: i64,
    /// The last identifier given to an entry.
    pub last_entry_id: i64,
}

/// What a [`Store`] holds.
#[verifier::ext_equal]
pub struct StoreModel {
    pub tasks: Seq<TaskModel>,
    pub subtasks: Seq<SubtaskRowModel>,
    pub entries: Seq<TimeEntryModel>,
    pub last_task_id: i64,
    pub last_subtask_id: i64,
    pub last_entry_id: i64,
}

impl View for Store {
    type V = StoreModel;

    open spec fn view(&self) -> StoreModel {
        StoreModel {
            tasks: models(self.tasks@),
            subtasks: models(self.subtasks@),
            entries: models(self.entries@),
            last_task_id: self.last_task_id,
            last_subtask_id: self.last_subtask_id,
            last_entry_id: self.last_entry_id,
        }
    }
}

// ---------------------------------------------------------------------------
// Rows by what they hold
// ---------------------------------------------------------------------------

/// Whether a task has an identifier.
pub open spec fn task_has_id(id: i64) -> spec_fn(TaskModel) -> bool {
    |task: TaskModel| task.id == id
}

/// Whether a task has a name.
pub open spec fn task_has_name(name: Seq<char>) -> spec_fn(TaskModel) -> bool {
    |task: TaskModel| task.name == name
}

/// Whether a subtask has an identifier.
pub open spec fn subtask_has_id(id: i64) -> spec_fn(SubtaskRowModel) -> bool {
    |subtask: SubtaskRowModel| subtask.id == id
}

/// Whether a subtask has a key.
pub open spec fn subtask_has_key(key: Seq<char>) -> spec_fn(SubtaskRowModel) -> bool {
    |subtask: SubtaskRowModel| subtask.name_key == key
}

/// Whether an entry has an identifier.
pub open spec fn entry_has_id(id: i64) -> spec_fn(TimeEntryModel) -> bool {
    |entry: TimeEntryModel| entry.id == id
}

// ---------------------------------------------------------------------------
// What the tables keep to
// ---------------------------------------------------------------------------

/// Tasks are told apart by their identifiers, which ascend up to the last one
/// given out, and by their names.
pub open spec fn tasks_fit(tasks: Seq<TaskModel>, last: i64) -> bool {
    &&& forall|i: int, j: int|
        0 <= i < j < tasks.len() ==> (#[trigger] tasks[i]).id < (#[trigger] tasks[j]).id
    &&& forall|i: int, j: int|
        0 <= i < j < tasks.len() ==> (#[trigger] tasks[i]).name != (#[trigger] tasks[j]).name
    &&& forall|i: int| 0 <= i < tasks.len() ==> (#[trigger] tasks[i]).id <= last
}

/// Subtasks are told apart by their identifiers, which ascend up to the last one
/// given out, and by their keys.
pub open spec fn subtasks_fit(subtasks: Seq<SubtaskRowModel>, last: i64) -> bool {
    &&& forall|i: int, j: int|
        0 <= i < j < subtasks.len() ==> (#[trigger] subtasks[i]).id < (#[trigger] subtasks[j]).id
    &&& forall|i: int, j: int|
        0 <= i < j < subtasks.len() ==> (#[trigger] subtasks[i]).name_key != (
        #[trigger] subtasks[j]).name_key
    &&& forall|i: int| 0 <= i < subtasks.len() ==> (#[trigger] subtasks[i]).id <= last
}

/// Entries are told apart by their identifiers, which ascend up to the last one
/// given out.
pub open spec fn entries_fit(entries: Seq<TimeEntryModel>, last: i64) -> bool {
    &&& forall|i: int, j: int|
        0 <= i < j < entries.len() ==> (#[trigger] entries[i]).id < (#[trigger] entries[j]).id
    &&& forall|i: int| 0 <= i < entries.len() ==> (#[trigger] entries[i]).id <= last
}

impl StoreModel {
    /// Whether there is a task with an identifier.
    pub open spec fn has_task(self, id: i64) -> bool {
        exists|i: int| 0 <= i < self.tasks.len() && (#[trigger] self.tasks[i]).id == id
    }

    /// Whether there is a subtask with an identifier.
    pub open spec fn has_subtask(self, id: i64) -> bool {
        exists|i: int| 0 <= i < self.subtasks.len() && (#[trigger] self.subtasks[i]).id == id
    }

    /// Whether what an entry refers to is there.
    pub open spec fn resolves(self, entry: TimeEntryModel) -> bool {
        &&& self.has_task(entry.task_id)
        &&& entry.subtask_id matches Some(id) ==> self.has_subtask(id)
    }

    /// What holds of the tables between requests: identifiers, task names and
    /// subtask keys occur once, and every entry refers to rows that are there.
    pub open spec fn wf(self) -> bool {
        &&& tasks_fit(self.tasks, self.last_task_id)
        &&& subtasks_fit(self.subtasks, self.last_subtask_id)
        &&& entries_fit(self.entries, self.last_entry_id)
        &&& forall|k: int| 0 <= k < self.entries.len() ==> self.resolves(#[trigger] self.entries[k])
    }

    /// Where the task with an identifier stands.
    pub open spec fn task_at(self, id: i64) -> Option<int> {
        position(self.tasks, task_has_id(id))
    }

    /// Where the subtask with an identifier stands.
    pub open spec fn subtask_at(self, id: i64) -> Option<int> {
        position(self.subtasks, subtask_has_id(id))
    }

    /// Where the entry with an identifier stands.
    pub open spec fn entry_at(self, id: i64) -> Option<int> {
        position(self.entries, entry_has_id(id))
    }
}

/// A position is there exactly for the rows that are.
pub broadcast proof fn positions_find_rows(m: StoreModel, id: i64)
    ensures
        #![trigger m.task_at(id)]
        #![trigger m.has_task(id)]
        m.task_at(id) is Some <==> m.has_task(id),
        m.task_at(id) matches Some(i) ==> 0 <= i < m.tasks.len() && m.tasks[i].id == id,
{
    position_is_the_first(m.tasks, task_has_id(id));
    if m.has_task(id) {
        let i = choose|i: int| 0 <= i < m.tasks.len() && (#[trigger] m.tasks[i]).id == id;
        assert(task_has_id(id)(m.tasks[i]));
    }
}

/// A position is there exactly for the subtasks that are.
pub broadcast proof fn positions_find_subtasks(m: StoreModel, id: i64)
    ensures
        #![trigger m.subtask_at(id)]
        #![trigger m.has_subtask(id)]
        m.subtask_at(id) is Some <==> m.has_subtask(id),
        m.subtask_at(id) matches Some(i) ==> 0 <= i < m.subtasks.len() && m.subtasks[i].id == id,
{
    position_is_the_first(m.subtasks, subtask_has_id(id));
    if m.has_subtask(id) {
        let i = choose|i: int| 0 <= i < m.subtasks.len() && (#[trigger] m.subtasks[i]).id == id;
        assert(subtask_has_id(id)(m.subtasks[i]));
    }
}

/// Where a task stands.
pub(crate) fn find_task(store: &Store, id: i64) -> (result: Option<usize>)
    ensures
        match result {
            Some(i) => store@.task_at(id) == Some(i as int) && i < store.tasks@.len(),
            None => store@.task_at(id) is None,
        },
{
    let passes = |task: &Task| -> (same: bool)
        ensures
            same == (task@.id == id),
    {
        task.id == id
    };
    find_by(&store.tasks, passes, Ghost(task_has_id(id)))
}

/// Where a subtask stands.
pub(crate) fn find_subtask(store: &Store, id: i64) -> (result: Option<usize>)
    ensures
        match result {
            Some(i) => store@.subtask_at(id) == Some(i as int) && i < store.subtasks@.len(),
            None => store@.subtask_at(id) is None,
        },
{
    let passes = |subtask: &SubtaskRow| -> (same: bool)
        ensures
            same == (subtask@.id == id),
    {
        subtask.id == id
    };
    find_by(&store.subtasks, passes, Ghost(subtask_has_id(id)))
}

/// Where an entry stands.
pub(crate) fn find_entry(store: &Store, id: i64) -> (result: Option<usize>)
    ensures
        match result {
            Some(i) => store@.entry_at(id) == Some(i as int) && i < store.entries@.len(),
            None => store@.entry_at(id) is None,
        },
{
    let passes = |entry: &TimeEntry| -> (same: bool)
        ensures
            same == (entry@.id == id),
    {
        entry.id == id
    };
    find_by(&store.entries, passes, Ghost(entry_has_id(id)))
}

/// Whether a request did what it should: its answer and the tables after it are
/// the expected ones, and a refused request changes nothing.
pub open spec fn carried_out<T: View>(
    result: Result<T, TrackerError>,
    before: StoreModel,
    after: StoreModel,
    expected: Result<(StoreModel, T::V), TrackerError>,
) -> bool {
    match (result, expected) {
        (Ok(answer), Ok(done)) => after == done.0 && answer@ == done.1,
        (Err(error), Err(refusal)) => error == refusal && after == before,
        _ => false,
    }
}

/// Whether a look at the tables gave what it should.
pub open spec fn answered<T: View>(
    result: Result<T, TrackerError>,
    expected: Result<T::V, TrackerError>,
) -> bool {
    match (result, expected) {
        (Ok(answer), Ok(value)) => answer@ == value,
        (Err(error), Err(refusal)) => error == refusal,
        _ => false,
    }
}

// ---------------------------------------------------------------------------
// Tasks
// ---------------------------------------------------------------------------

/// A task as a request describes it: with the name and the links of the request,
/// open, and its state on GitHub checked now where the request gives it.
pub open spec fn described_task(
    id: i64,
    created_at: Seq<char>,
    input: TaskInputModel,
    now: Seq<char>,
) -> TaskModel {
    TaskModel {
        id,
        name: trimmed(input.name),
        github_kind: optional_name(input.github_kind),
        github_reference: optional_name(input.github_reference),
        github_state: optional_name(input.github_state),
        github_checked_at: if optional_name(input.github_state) is Some {
            Some(now)
        } else {
            None
        },
        closed_at: None,
        created_at,
        updated_at: now,
    }
}

impl StoreModel {
    /// Finds or creates the task with a name, and gives it what the request says.
    pub open spec fn upsert_task(self, input: TaskInputModel, now: Seq<char>) -> Result<
        (StoreModel, TaskModel),
        TrackerError,
    > {
        if trimmed(input.name).len() == 0 {
            Err(TrackerError::MissingTaskName)
        } else {
            match position(self.tasks, task_has_name(trimmed(input.name))) {
                Some(i) => {
                    let there = self.tasks[i];
                    let task = described_task(there.id, there.created_at, input, now);
                    Ok((StoreModel { tasks: self.tasks.update(i, task), ..self }, task))
                },
                None => if self.last_task_id == i64::MAX {
                    Err(TrackerError::Database(DatabaseFault::Full))
                } else {
                    let id = (self.last_task_id + 1) as i64;
                    let task = described_task(id, now, input, now);
                    let tasks = self.tasks.push(task);
                    Ok((StoreModel { tasks, last_task_id: id, ..self }, task))
                },
            }
        }
    }

    /// The task with an identifier.
    pub open spec fn task(self, id: i64) -> Result<TaskModel, TrackerError> {
        match self.task_at(id) {
            Some(i) => Ok(self.tasks[i]),
            None => Err(TrackerError::Database(DatabaseFault::NoRows)),
        }
    }
}

/// Describing a task keeps what the tables keep to.
pub proof fn lemma_upsert_task_fits(m: StoreModel, input: TaskInputModel, now: Seq<char>)
    requires
        m.wf(),
        m.upsert_task(input, now) is Ok,
    ensures
        m.upsert_task(input, now)->Ok_0.0.wf(),
        m.upsert_task(input, now)->Ok_0.0.has_task(m.upsert_task(input, now)->Ok_0.1.id),
        forall|id: i64|
            m.has_task(id) ==> #[trigger] m.upsert_task(input, now)->Ok_0.0.has_task(id),
        m.upsert_task(input, now)->Ok_0.0.subtasks == m.subtasks,
        m.upsert_task(input, now)->Ok_0.0.entries == m.entries,
{
    let name = trimmed(input.name);
    let done = m.upsert_task(input, now)->Ok_0;
    let after = done.0;
    position_is_the_first(m.tasks, task_has_name(name));
    match position(m.tasks, task_has_name(name)) {
        Some(i) => {
            assert(after.tasks[i].id == m.tasks[i].id);
            assert(after.tasks[i] == done.1);
            assert forall|id: i64| m.has_task(id) implies #[trigger] after.has_task(id) by {
                let k = choose|k: int| 0 <= k < m.tasks.len() && (#[trigger] m.tasks[k]).id == id;
                assert(after.tasks[k].id == id);
            }
        },
        None => {
            assert(after.tasks[m.tasks.len() as int] == done.1);
            assert forall|i: int, j: int| 0 <= i < j < after.tasks.len() implies (
            #[trigger] after.tasks[i]).name != (#[trigger] after.tasks[j]).name by {
                if j == m.tasks.len() {
                    assert(!task_has_name(name)(m.tasks[i]));
                }
            }
            assert forall|id: i64| m.has_task(id) implies #[trigger] after.has_task(id) by {
                let k = choose|k: int| 0 <= k < m.tasks.len() && (#[trigger] m.tasks[k]).id == id;
                assert(after.tasks[k].id == id);
            }
        },
    }
    assert forall|k: int| 0 <= k < after.entries.len() implies after.resolves(
        #[trigger] after.entries[k],
    ) by {
        assert(m.resolves(m.entries[k]));
        if let Some(id) = m.entries[k].subtask_id {
            let j = choose|j: int|
                0 <= j < m.subtasks.len() && (#[trigger] m.subtasks[j]).id == id;
            assert(after.subtasks[j].id == id);
        }
    }
}

/// Finds or creates the task with a name, and gives it what the request says.
pub fn upsert_task(
    store: &mut Store,
    input: &TaskInput,
    now: &str,
) -> (result: Result<Task, TrackerError>)
    requires
        old(store)@.wf(),
    ensures
        carried_out(result, old(store)@, final(store)@, old(store)@.upsert_task(input@, now@)),
        final(store)@.wf(),
{
    broadcast use models_of_push, models_of_update;

    let ghost before = store@;
    let name = match normalize_required(input.name.as_str()) {
        Ok(name) => name,
        Err(error) => return Err(error),
    };
    let github_kind = normalize_optional(input.github_kind.clone());
    let github_reference = normalize_optional(input.github_reference.clone());
    let github_state = normalize_optional(input.github_state.clone());
    let github_checked_at = match &github_state {
        Some(_) => Some(now.to_owned()),
        None => None,
    };
    let passes = |task: &Task| -> (same: bool)
        ensures
            same == (task@.name == name@),
    {
        same_text(task.name.as_str(), name.as_str())
    };
    let found = find_by(&store.tasks, passes, Ghost(task_has_name(name@)));
    match found {
        Some(i) => {
            let task = Task {
                id: store.tasks[i].id,
                name,
                github_kind,
                github_reference,
                github_state,
                github_checked_at,
                closed_at: None,
                created_at: store.tasks[i].created_at.clone(),
                updated_at: now.to_owned(),
            };
            store.tasks.set(i, task.clone());
            proof {
                lemma_upsert_task_fits(before, input@, now@);
            }
            Ok(task)
        },
        None => {
            if store.last_task_id == i64::MAX {
                return Err(TrackerError::Database(DatabaseFault::Full));
            }
            let id: i64 = store.last_task_id + 1;
            let task = Task {
                id,
                name,
                github_kind,
                github_reference,
                github_state,
                github_checked_at,
                closed_at: None,
                created_at: now.to_owned(),
                updated_at: now.to_owned(),
            };
            store.tasks.push(task.clone());
            store.last_task_id = id;
            proof {
                lemma_upsert_task_fits(before, input@, now@);
            }
            Ok(task)
        },
    }
}

/// The task with an identifier.
pub fn task_by_id(store: &Store, id: i64) -> (result: Result<Task, TrackerError>)
    ensures
        answered(result, store@.task(id)),
{
    match find_task(store, id) {
        Some(i) => Ok(store.tasks[i].clone()),
        None => Err(TrackerError::Database(DatabaseFault::NoRows)),
    }
}

// ---------------------------------------------------------------------------
// Subtasks
// ---------------------------------------------------------------------------

impl StoreModel {
    /// Finds or creates the subtask that a name stands for. One that was archived
    /// is in use again; one that is there keeps its spelling.
    pub open spec fn upsert_subtask(self, name: Seq<char>, now: Seq<char>) -> Result<
        (StoreModel, SubtaskModel),
        TrackerError,
    > {
        if subtask_name(name).len() == 0 {
            Err(TrackerError::MissingSubtaskName)
        } else {
            match position(self.subtasks, subtask_has_key(subtask_key(name))) {
                Some(i) => {
                    let subtask = SubtaskRowModel { archived_at: None, ..self.subtasks[i] };
                    Ok(
                        (
                            StoreModel { subtasks: self.subtasks.update(i, subtask), ..self },
                            subtask.shown(),
                        ),
                    )
                },
                None => if self.last_subtask_id == i64::MAX {
                    Err(TrackerError::Database(DatabaseFault::Full))
                } else {
                    let id = (self.last_subtask_id + 1) as i64;
                    let subtask = SubtaskRowModel {
                        id,
                        name: subtask_name(name),
                        name_key: subtask_key(name),
                        archived_at: None,
                        created_at: now,
                    };
                    Ok(
                        (
                            StoreModel {
                                subtasks: self.subtasks.push(subtask),
                                last_subtask_id: id,
                                ..self
                            },
                            subtask.shown(),
                        ),
                    )
                },
            }
        }
    }

    /// The subtask with an identifier.
    pub open spec fn subtask(self, id: i64) -> Result<SubtaskModel, TrackerError> {
        match self.subtask_at(id) {
            Some(i) => Ok(self.subtasks[i].shown()),
            None => Err(TrackerError::Database(DatabaseFault::NoRows)),
        }
    }
}

/// Naming a subtask keeps what the tables keep to.
pub proof fn lemma_upsert_subtask_fits(m: StoreModel, name: Seq<char>, now: Seq<char>)
    requires
        m.wf(),
        m.upsert_subtask(name, now) is Ok,
    ensures
        m.upsert_subtask(name, now)->Ok_0.0.wf(),
        m.upsert_subtask(name, now)->Ok_0.0.has_subtask(m.upsert_subtask(name, now)->Ok_0.1.id),
        forall|id: i64|
            m.has_subtask(id) ==> #[trigger] m.upsert_subtask(name, now)->Ok_0.0.has_subtask(id),
        m.upsert_subtask(name, now)->Ok_0.0.tasks == m.tasks,
        m.upsert_subtask(name, now)->Ok_0.0.entries == m.entries,
{
    let key = subtask_key(name);
    let done = m.upsert_subtask(name, now)->Ok_0;
    let after = done.0;
    position_is_the_first(m.subtasks, subtask_has_key(key));
    match position(m.subtasks, subtask_has_key(key)) {
        Some(i) => {
            assert(after.subtasks[i].id == m.subtasks[i].id);
            assert(after.subtasks[i].id == done.1.id);
        },
        None => {
            assert(after.subtasks[m.subtasks.len() as int].id == done.1.id);
            assert forall|i: int, j: int| 0 <= i < j < after.subtasks.len() implies (
            #[trigger] after.subtasks[i]).name_key != (#[trigger] after.subtasks[j]).name_key by {
                if j == m.subtasks.len() {
                    assert(!subtask_has_key(key)(m.subtasks[i]));
                }
            }
        },
    }
    assert forall|id: i64| m.has_subtask(id) implies #[trigger] after.has_subtask(id) by {
        let k = choose|k: int| 0 <= k < m.subtasks.len() && (#[trigger] m.subtasks[k]).id == id;
        assert(after.subtasks[k].id == id);
    }
    assert forall|k: int| 0 <= k < after.entries.len() implies after.resolves(
        #[trigger] after.entries[k],
    ) by {
        assert(m.resolves(m.entries[k]));
        let id = m.entries[k].task_id;
        let j = choose|j: int| 0 <= j < m.tasks.len() && (#[trigger] m.tasks[j]).id == id;
        assert(after.tasks[j].id == id);
    }
}

/// Finds or creates the subtask that a name stands for.
///
/// Names that differ only in case or spacing stand for the same subtask. Naming
/// an archived subtask brings it back, since it is clearly in use again.
pub fn upsert_subtask(
    store: &mut Store,
    name: &str,
    now: &str,
) -> (result: Result<Subtask, TrackerError>)
    requires
        old(store)@.wf(),
    ensures
        carried_out(result, old(store)@, final(store)@, old(store)@.upsert_subtask(name@, now@)),
        final(store)@.wf(),
{
    broadcast use models_of_push, models_of_update;

    let ghost before = store@;
    let display_name = normalize_subtask_name(name);
    let name_key = subtask_name_key(display_name.as_str());
    proof {
        stored_names_are_stable(name@);
    }
    if name_key.as_str().is_empty() {
        return Err(TrackerError::MissingSubtaskName);
    }
    let passes = |subtask: &SubtaskRow| -> (same: bool)
        ensures
            same == (subtask@.name_key == name_key@),
    {
        same_text(subtask.name_key.as_str(), name_key.as_str())
    };
    let found = find_by(&store.subtasks, passes, Ghost(subtask_has_key(name_key@)));
    match found {
        Some(i) => {
            let mut subtask = store.subtasks[i].clone();
            subtask.archived_at = None;
            let shown = subtask.shown();
            store.subtasks.set(i, subtask);
            proof {
                lemma_upsert_subtask_fits(before, name@, now@);
            }
            Ok(shown)
        },
        None => {
            if store.last_subtask_id == i64::MAX {
                return Err(TrackerError::Database(DatabaseFault::Full));
            }
            let id: i64 = store.last_subtask_id + 1;
            let subtask = SubtaskRow {
                id,
                name: display_name,
                name_key,
                archived_at: None,
                created_at: now.to_owned(),
            };
            let shown = subtask.shown();
            store.subtasks.push(subtask);
            store.last_subtask_id = id;
            proof {
                lemma_upsert_subtask_fits(before, name@, now@);
            }
            Ok(shown)
        },
    }
}

/// The subtask with an identifier.
pub fn subtask_by_id(store: &Store, id: i64) -> (result: Result<Subtask, TrackerError>)
    ensures
        answered(result, store@.subtask(id)),
{
    match find_subtask(store, id) {
        Some(i) => Ok(store.subtasks[i].shown()),
        None => Err(TrackerError::Database(DatabaseFault::NoRows)),
    }
}

// ---------------------------------------------------------------------------
// Entries
// ---------------------------------------------------------------------------

/// An entry that ends now if it runs, where it belongs to the given task or where
/// no task is given.
pub open spec fn ending(task_id: Option<i64>, now: Seq<char>) -> spec_fn(
    TimeEntryModel,
) -> TimeEntryModel {
    |entry: TimeEntryModel|
        if entry.ended_at is None && (task_id is None || task_id == Some(entry.task_id)) {
            TimeEntryModel { ended_at: Some(now), ..entry }
        } else {
            entry
        }
}

impl StoreModel {
    /// Ends the running entries of a task, or all of them.
    pub open spec fn end_entries(self, task_id: Option<i64>, now: Seq<char>) -> StoreModel {
        StoreModel { entries: self.entries.map_values(ending(task_id, now)), ..self }
    }
}

/// Entries that keep their identifiers and refer to rows that are there keep what
/// the tables keep to.
pub proof fn lemma_entries_fit(m: StoreModel, entries: Seq<TimeEntryModel>)
    requires
        m.wf(),
        entries.len() == m.entries.len(),
        forall|k: int|
            0 <= k < entries.len() ==> (#[trigger] entries[k]).id == m.entries[k].id && m.resolves(
                entries[k],
            ),
    ensures
        (StoreModel { entries, ..m }).wf(),
{
    let after = StoreModel { entries, ..m };
    assert forall|i: int, j: int| 0 <= i < j < entries.len() implies (#[trigger] entries[i]).id < (
    #[trigger] entries[j]).id by {
        assert(m.entries[i].id < m.entries[j].id);
    }
    assert forall|i: int| 0 <= i < entries.len() implies (#[trigger] entries[i]).id
        <= after.last_entry_id by {
        assert(m.entries[i].id <= m.last_entry_id);
    }
    assert forall|k: int| 0 <= k < after.entries.len() implies after.resolves(
        #[trigger] after.entries[k],
    ) by {
        assert(m.resolves(entries[k]));
        lemma_same_rows_resolve(m, after, entries[k]);
    }
}

/// What an entry refers to is there wherever the same tasks and subtasks are.
pub proof fn lemma_same_rows_resolve(m: StoreModel, other: StoreModel, entry: TimeEntryModel)
    requires
        m.resolves(entry),
        other.tasks == m.tasks,
        other.subtasks == m.subtasks,
    ensures
        other.resolves(entry),
{
    let i = choose|i: int| 0 <= i < m.tasks.len() && (#[trigger] m.tasks[i]).id == entry.task_id;
    assert(other.tasks[i].id == entry.task_id);
    if let Some(id) = entry.subtask_id {
        let j = choose|j: int| 0 <= j < m.subtasks.len() && (#[trigger] m.subtasks[j]).id == id;
        assert(other.subtasks[j].id == id);
    }
}

/// Ending entries keeps what the tables keep to.
pub proof fn lemma_end_entries_fits(m: StoreModel, task_id: Option<i64>, now: Seq<char>)
    requires
        m.wf(),
    ensures
        m.end_entries(task_id, now).wf(),
{
    let entries = m.entries.map_values(ending(task_id, now));
    assert forall|k: int| 0 <= k < entries.len() implies (#[trigger] entries[k]).id
        == m.entries[k].id && m.resolves(entries[k]) by {
        assert(m.resolves(m.entries[k]));
    }
    lemma_entries_fit(m, entries);
}

/// Ends the running entries of a task, or all of them.
pub(crate) fn end_entries(store: &mut Store, task_id: Option<i64>, now: &str)
    requires
        old(store)@.wf(),
    ensures
        final(store)@ == old(store)@.end_entries(task_id, now@),
        final(store)@.wf(),
{
    broadcast use models_of_update;

    let ghost before = store@;
    let ghost ended = ending(task_id, now@);
    let count: usize = store.entries.len();
    for i in 0..count
        invariant
            store.entries@.len() == before.entries.len() == count,
            store@ == (StoreModel { entries: store@.entries, ..before }),
            ended == ending(task_id, now@),
            forall|k: int|
                0 <= k < before.entries.len() ==> (#[trigger] store@.entries[k]) == if k < i {
                    ended(before.entries[k])
                } else {
                    before.entries[k]
                },
    {
        let ghost current = store@;
        let applies = match task_id {
            Some(id) => store.entries[i].task_id == id,
            None => true,
        };
        assert(store@.entries[i as int] == before.entries[i as int]);
        if store.entries[i].ended_at.is_none() && applies {
            store.entries[i].ended_at = Some(now.to_owned());
        }
        assert(store@.entries == current.entries.update(i as int, ended(before.entries[i as int])));
    }
    proof {
        lemma_end_entries_fits(before, task_id, now@);
        assert(store@ == before.end_entries(task_id, now@));
    }
}

/// Ends every running entry.
pub fn stop_active_entries(store: &mut Store, ended_at: &str)
    requires
        old(store)@.wf(),
    ensures
        final(store)@ == old(store)@.end_entries(None, ended_at@),
        final(store)@.wf(),
{
    end_entries(store, None, ended_at)
}

// ---------------------------------------------------------------------------
// Whole tables
// ---------------------------------------------------------------------------

/// Whether tasks are told apart by their identifiers and their names.
pub(crate) fn tasks_are_consistent(rows: &Vec<Task>, last: i64) -> (result: bool)
    ensures
        result == tasks_fit(models(rows@), last),
{
    let ghost tasks = models(rows@);
    for j in 0..rows.len()
        invariant
            tasks == models(rows@),
            tasks_fit(tasks.take(j as int), last),
    {
        let ghost before = tasks.take(j as int);
        let ghost after = tasks.take(j + 1);
        assert(after == before.push(tasks[j as int]));
        if rows[j].id > last {
            assert(tasks[j as int].id > last);
            return false;
        }
        for i in 0..j
            invariant
                j < rows@.len(),
                tasks == models(rows@),
                forall|k: int|
                    0 <= k < i ==> (#[trigger] tasks[k]).id < tasks[j as int].id
                        && tasks[k].name != tasks[j as int].name,
        {
            if rows[i].id >= rows[j].id || same_text(
                rows[i].name.as_str(),
                rows[j].name.as_str(),
            ) {
                assert(tasks[i as int].id >= tasks[j as int].id || tasks[i as int].name
                    == tasks[j as int].name);
                return false;
            }
        }
        assert forall|i: int, k: int| 0 <= i < k < after.len() implies (#[trigger] after[i]).id
            < (#[trigger] after[k]).id && after[i].name != after[k].name by {
            if k < j {
                assert(before[i].id < before[k].id);
                assert(before[i].name != before[k].name);
            } else {
                assert(tasks[i].id < tasks[j as int].id);
            }
        }
        assert forall|i: int| 0 <= i < after.len() implies (#[trigger] after[i]).id
            <= last by {
            if i < j {
                assert(before[i].id <= last);
            }
        }
    }
    assert(tasks.take(tasks.len() as int) == tasks);
    true
}

/// Whether entries are told apart by their identifiers.
pub(crate) fn entries_are_consistent(rows: &Vec<TimeEntry>, last: i64) -> (result: bool)
    ensures
        result == entries_fit(models(rows@), last),
{
    let ghost entries = models(rows@);
    for j in 0..rows.len()
        invariant
            entries == models(rows@),
            entries_fit(entries.take(j as int), last),
    {
        let ghost before = entries.take(j as int);
        let ghost after = entries.take(j + 1);
        assert(after == before.push(entries[j as int]));
        if rows[j].id > last {
            assert(entries[j as int].id > last);
            return false;
        }
        if j > 0 && rows[j - 1].id >= rows[j].id {
            assert(entries[j - 1].id >= entries[j as int].id);
            return false;
        }
        assert forall|i: int, k: int| 0 <= i < k < after.len() implies (#[trigger] after[i]).id
            < (#[trigger] after[k]).id by {
            if k < j {
                assert(before[i].id < before[k].id);
            } else if i < j - 1 {
                assert(before[i].id < before[j - 1].id);
                assert(entries[j - 1].id < entries[j as int].id);
            } else {
                assert(entries[j - 1].id < entries[j as int].id);
            }
        }
        assert forall|i: int| 0 <= i < after.len() implies (#[trigger] after[i]).id
            <= last by {
            if i < j {
                assert(before[i].id <= last);
            }
        }
    }
    assert(entries.take(entries.len() as int) == entries);
    true
}

impl Store {
    /// Tables without rows, from which no identifier has been given out.
    pub fn new() -> (result: Store)
        ensures
            result@ == empty_store(),
            result@.wf(),
    {
        let store = Store {
            tasks: Vec::new(),
            subtasks: Vec::new(),
            entries: Vec::new(),
            last_task_id: 0,
            last_subtask_id: 0,
            last_entry_id: 0,
        };
        assert(store@ == empty_store());
        store
    }

    /// A second copy of the tables.
    pub fn duplicate(&self) -> (result: Store)
        ensures
            result@ == self@,
    {
        let mut tasks: Vec<Task> = Vec::new();
        for i in 0..self.tasks.len()
            invariant
                tasks@ == self.tasks@.take(i as int),
        {
            tasks.push(self.tasks[i].clone());
            assert(tasks@ == self.tasks@.take(i + 1));
        }
        let mut subtasks: Vec<SubtaskRow> = Vec::new();
        for i in 0..self.subtasks.len()
            invariant
                subtasks@ == self.subtasks@.take(i as int),
        {
            subtasks.push(self.subtasks[i].clone());
            assert(subtasks@ == self.subtasks@.take(i + 1));
        }
        let mut entries: Vec<TimeEntry> = Vec::new();
        for i in 0..self.entries.len()
            invariant
                entries@ == self.entries@.take(i as int),
        {
            entries.push(self.entries[i].clone());
            assert(entries@ == self.entries@.take(i + 1));
        }
        assert(tasks@ == self.tasks@);
        assert(subtasks@ == self.subtasks@);
        assert(entries@ == self.entries@);
        Store {
            tasks,
            subtasks,
            entries,
            last_task_id: self.last_task_id,
            last_subtask_id: self.last_subtask_id,
            last_entry_id: self.last_entry_id,
        }
    }

    /// Whether the tables are as they should be between requests.
    pub fn is_consistent(&self) -> (result: bool)
        ensures
            result == self@.wf(),
    {
        tasks_are_consistent(&self.tasks, self.last_task_id)
            && self.subtasks_are_consistent()
            && entries_are_consistent(&self.entries, self.last_entry_id)
            && self.references_are_consistent()
    }

    fn subtasks_are_consistent(&self) -> (result: bool)
        ensures
            result == subtasks_fit(self@.subtasks, self.last_subtask_id),
    {
        let ghost subtasks = self@.subtasks;
        for j in 0..self.subtasks.len()
            invariant
                subtasks == self@.subtasks,
                subtasks_fit(subtasks.take(j as int), self.last_subtask_id),
        {
            let ghost before = subtasks.take(j as int);
            let ghost after = subtasks.take(j + 1);
            assert(after == before.push(subtasks[j as int]));
            if self.subtasks[j].id > self.last_subtask_id {
                assert(subtasks[j as int].id > self.last_subtask_id);
                return false;
            }
            for i in 0..j
                invariant
                    j < self.subtasks@.len(),
                    subtasks == self@.subtasks,
                    forall|k: int|
                        0 <= k < i ==> (#[trigger] subtasks[k]).id < subtasks[j as int].id
                            && subtasks[k].name_key != subtasks[j as int].name_key,
            {
                if self.subtasks[i].id >= self.subtasks[j].id || same_text(
                    self.subtasks[i].name_key.as_str(),
                    self.subtasks[j].name_key.as_str(),
                ) {
                    assert(subtasks[i as int].id >= subtasks[j as int].id
                        || subtasks[i as int].name_key == subtasks[j as int].name_key);
                    return false;
                }
            }
            assert forall|i: int, k: int| 0 <= i < k < after.len() implies (#[trigger] after[i]).id
                < (#[trigger] after[k]).id && after[i].name_key != after[k].name_key by {
                if k < j {
                    assert(before[i].id < before[k].id);
                    assert(before[i].name_key != before[k].name_key);
                } else {
                    assert(subtasks[i].id < subtasks[j as int].id);
                }
            }
            assert forall|i: int| 0 <= i < after.len() implies (#[trigger] after[i]).id
                <= self.last_subtask_id by {
                if i < j {
                    assert(before[i].id <= self.last_subtask_id);
                }
            }
        }
        assert(subtasks.take(subtasks.len() as int) == subtasks);
        true
    }

    fn references_are_consistent(&self) -> (result: bool)
        ensures
            result == (forall|k: int|
                0 <= k < self@.entries.len() ==> self@.resolves(#[trigger] self@.entries[k])),
    {
        for j in 0..self.entries.len()
            invariant
                forall|k: int| 0 <= k < j ==> self@.resolves(#[trigger] self@.entries[k]),
        {
            let entry = &self.entries[j];
            assert(self@.entries[j as int] == entry@);
            proof {
                positions_find_rows(self@, entry.task_id);
            }
            if find_task(self, entry.task_id).is_none() {
                assert(!self@.resolves(self@.entries[j as int]));
                return false;
            }
            if let Some(id) = entry.subtask_id {
                proof {
                    positions_find_subtasks(self@, id);
                }
                if find_subtask(self, id).is_none() {
                    assert(!self@.resolves(self@.entries[j as int]));
                    return false;
                }
            }
        }
        true
    }
}

/// Tables without rows.
pub open spec fn empty_store() -> StoreModel {
    StoreModel {
        tasks: Seq::empty(),
        subtasks: Seq::empty(),
        entries: Seq::empty(),
        last_task_id: 0,
        last_subtask_id: 0,
        last_entry_id: 0,
    }
}

} // verus!
