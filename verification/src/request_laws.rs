//! What each request does to the rows of the tables, field by field.

use vstd::prelude::*;
use crate::clock::{entry_seconds, utc_text, Timestamp};
use crate::entries::{newest, newest_are_recorded, newest_first, newest_first_can_sort};
use crate::error::{DatabaseFault, TrackerError};
use crate::lists::{
    lemma_position_found, passing_items_are_kept, position, position_is_the_first,
    sorted_items_were_there, sorting_orders_the_same_items,
};
use crate::names::{
    blank_names_are_empty, optional_name, subtask_key, subtask_name,
    surrounding_spaces_do_not_matter,
};
use crate::records::{
    SubtaskModel, SubtaskRowModel, SubtaskViewModel, TaskInputModel, TimeEntryModel,
};
use crate::store::{
    entry_has_id, positions_find_rows, positions_find_subtasks, subtask_has_id, subtask_has_key,
    task_has_id, task_has_name, StoreModel,
};
use crate::subtask_laws::{a_named_subtask_is_in_use, lemma_subtask_place};
use crate::subtasks::another_has_key;
use crate::text::{
    text_before, text_order_is_irreflexive, text_order_is_total, trimmed, trimming_is_idempotent,
};
use crate::timer_laws::{lemma_task_place, one_timer_runs};
use crate::timers::{
    lemma_end_entry_fits, lemma_picked_are_recorded, lemma_recorded_has_place, of_task, runs,
    subtask_id_of,
};

verus! {

// ---------------------------------------------------------------------------
// Naming tasks
// ---------------------------------------------------------------------------

/// Whether an optional text is what is kept of one that a user typed: the text
/// without the spaces around it, and nothing where it is blank or absent.
pub open spec fn is_kept_of(kept: Option<Seq<char>>, typed: Option<Seq<char>>) -> bool {
    match typed {
        None => kept is None,
        Some(text) => if trimmed(text).len() == 0 {
            kept is None
        } else {
            kept == Some(trimmed(text))
        },
    }
}

/// A named task has the name and the links that the request gives, is open and was
/// updated now; its state counts as checked now exactly where the request gives one.
pub proof fn a_named_task_is_as_described(m: StoreModel, input: TaskInputModel, now: Seq<char>)
    requires
        m.upsert_task(input, now) is Ok,
    ensures
        ({
            let task = m.upsert_task(input, now)->Ok_0.1;
            &&& task.name == trimmed(input.name)
            &&& is_kept_of(task.github_kind, input.github_kind)
            &&& is_kept_of(task.github_reference, input.github_reference)
            &&& is_kept_of(task.github_state, input.github_state)
            &&& task.github_state is Some ==> task.github_checked_at == Some(now)
            &&& task.github_state is None ==> task.github_checked_at is None
            &&& task.closed_at is None
            &&& task.updated_at == now
        }),
{
}

/// Naming a task that is there changes its row and no other, and keeps its
/// identifier and the time it was created.
pub proof fn naming_a_task_changes_its_row_alone(
    m: StoreModel,
    input: TaskInputModel,
    now: Seq<char>,
    i: int,
)
    requires
        m.wf(),
        0 <= i < m.tasks.len(),
        m.tasks[i].name == trimmed(input.name),
        trimmed(input.name).len() > 0,
    ensures
        m.upsert_task(input, now) matches Ok(done) && {
            &&& done.1.id == m.tasks[i].id
            &&& done.1.created_at == m.tasks[i].created_at
            &&& done.0.tasks.len() == m.tasks.len()
            &&& done.0.tasks[i] == done.1
            &&& forall|k: int|
                0 <= k < m.tasks.len() && k != i ==> #[trigger] done.0.tasks[k] == m.tasks[k]
            &&& done.0.subtasks == m.subtasks
            &&& done.0.entries == m.entries
            &&& done.0.last_task_id == m.last_task_id
            &&& done.0.last_subtask_id == m.last_subtask_id
            &&& done.0.last_entry_id == m.last_entry_id
        },
{
    let test = task_has_name(trimmed(input.name));
    assert forall|j: int| 0 <= j < i implies !test(#[trigger] m.tasks[j]) by {
        assert(m.tasks[j].name != m.tasks[i].name);
    }
    lemma_position_found(m.tasks, test, i);
}

/// Naming a task that is not there adds a row after all others, with an identifier
/// that none has had, created now; where no identifier is left it is refused.
pub proof fn naming_a_new_task_adds_a_row(m: StoreModel, input: TaskInputModel, now: Seq<char>)
    requires
        trimmed(input.name).len() > 0,
        forall|k: int| 0 <= k < m.tasks.len() ==> (#[trigger] m.tasks[k]).name != trimmed(
            input.name,
        ),
    ensures
        match m.upsert_task(input, now) {
            Ok(done) => {
                &&& m.last_task_id < i64::MAX
                &&& done.1.id == m.last_task_id + 1
                &&& done.1.created_at == now
                &&& done.0.tasks == m.tasks.push(done.1)
                &&& done.0.last_task_id == done.1.id
                &&& done.0.subtasks == m.subtasks
                &&& done.0.entries == m.entries
                &&& done.0.last_subtask_id == m.last_subtask_id
                &&& done.0.last_entry_id == m.last_entry_id
            },
            Err(error) => m.last_task_id == i64::MAX && error == TrackerError::Database(
                DatabaseFault::Full,
            ),
        },
{
    position_is_the_first(m.tasks, task_has_name(trimmed(input.name)));
}

/// A task is refused for want of a name exactly where the name is blank.
pub proof fn blank_task_names_are_refused(m: StoreModel, input: TaskInputModel, now: Seq<char>)
    ensures
        (m.upsert_task(input, now) matches Err(error) && error is MissingTaskName)
            <==> trimmed(input.name).len() == 0,
{
}

/// The task found by its identifier is the row that has it, and none is found where
/// no row does.
pub proof fn tasks_are_found_by_identifier(m: StoreModel, id: i64)
    requires
        m.wf(),
    ensures
        match m.task(id) {
            Ok(task) => task.id == id && m.tasks.contains(task),
            Err(error) => error == TrackerError::Database(DatabaseFault::NoRows) && forall|k: int|
                0 <= k < m.tasks.len() ==> (#[trigger] m.tasks[k]).id != id,
        },
{
    position_is_the_first(m.tasks, task_has_id(id));
    if m.task_at(id) is None {
        assert forall|k: int| 0 <= k < m.tasks.len() implies (#[trigger] m.tasks[k]).id != id by {
            assert(!task_has_id(id)(m.tasks[k]));
        }
    }
}

/// The subtask found by its identifier is that of the row that has it, and none is
/// found where no row does.
pub proof fn subtasks_are_found_by_identifier(m: StoreModel, id: i64)
    requires
        m.wf(),
    ensures
        match m.subtask(id) {
            Ok(subtask) => exists|k: int|
                0 <= k < m.subtasks.len() && (#[trigger] m.subtasks[k]).id == id && subtask.id == id
                    && subtask.name == m.subtasks[k].name && subtask.archived_at
                    == m.subtasks[k].archived_at && subtask.created_at == m.subtasks[k].created_at,
            Err(error) => error == TrackerError::Database(DatabaseFault::NoRows) && forall|k: int|
                0 <= k < m.subtasks.len() ==> (#[trigger] m.subtasks[k]).id != id,
        },
{
    position_is_the_first(m.subtasks, subtask_has_id(id));
    match m.subtask_at(id) {
        Some(i) => {
            assert(m.subtasks[i].id == id);
        },
        None => {
            assert forall|k: int| 0 <= k < m.subtasks.len() implies (#[trigger] m.subtasks[k]).id
                != id by {
                assert(!subtask_has_id(id)(m.subtasks[k]));
            }
        },
    }
}

// ---------------------------------------------------------------------------
// Naming subtasks
// ---------------------------------------------------------------------------

/// Naming a subtask that is there changes nothing but that it is in use.
pub proof fn naming_a_subtask_changes_its_row_alone(
    m: StoreModel,
    name: Seq<char>,
    now: Seq<char>,
    i: int,
)
    requires
        m.wf(),
        0 <= i < m.subtasks.len(),
        m.subtasks[i].name_key == subtask_key(name),
        subtask_name(name).len() > 0,
    ensures
        m.upsert_subtask(name, now) matches Ok(done) && {
            &&& done.1.id == m.subtasks[i].id
            &&& done.1.name == m.subtasks[i].name
            &&& done.1.archived_at is None
            &&& done.1.created_at == m.subtasks[i].created_at
            &&& done.0.subtasks.len() == m.subtasks.len()
            &&& done.0.subtasks[i].id == m.subtasks[i].id
            &&& done.0.subtasks[i].name == m.subtasks[i].name
            &&& done.0.subtasks[i].name_key == m.subtasks[i].name_key
            &&& done.0.subtasks[i].archived_at is None
            &&& done.0.subtasks[i].created_at == m.subtasks[i].created_at
            &&& forall|k: int|
                0 <= k < m.subtasks.len() && k != i ==> #[trigger] done.0.subtasks[k]
                    == m.subtasks[k]
            &&& done.0.tasks == m.tasks
            &&& done.0.entries == m.entries
            &&& done.0.last_task_id == m.last_task_id
            &&& done.0.last_subtask_id == m.last_subtask_id
            &&& done.0.last_entry_id == m.last_entry_id
        },
{
    let test = subtask_has_key(subtask_key(name));
    assert forall|j: int| 0 <= j < i implies !test(#[trigger] m.subtasks[j]) by {
        assert(m.subtasks[j].name_key != m.subtasks[i].name_key);
    }
    lemma_position_found(m.subtasks, test, i);
}

/// Naming a subtask that is not there adds a row after all others, with the stored
/// form of the name and its key, with an identifier that none has had, in use and
/// created now; where no identifier is left it is refused.
pub proof fn naming_a_new_subtask_adds_a_row(m: StoreModel, name: Seq<char>, now: Seq<char>)
    requires
        subtask_name(name).len() > 0,
        forall|k: int|
            0 <= k < m.subtasks.len() ==> (#[trigger] m.subtasks[k]).name_key != subtask_key(name),
    ensures
        match m.upsert_subtask(name, now) {
            Ok(done) => {
                let added = done.0.subtasks.last();
                &&& m.last_subtask_id < i64::MAX
                &&& done.0.subtasks.len() == m.subtasks.len() + 1
                &&& done.0.subtasks.drop_last() == m.subtasks
                &&& added.id == m.last_subtask_id + 1
                &&& added.name == subtask_name(name)
                &&& added.name_key == subtask_key(name)
                &&& added.archived_at is None
                &&& added.created_at == now
                &&& done.1.id == added.id
                &&& done.1.name == added.name
                &&& done.1.archived_at is None
                &&& done.1.created_at == now
                &&& done.0.last_subtask_id == added.id
                &&& done.0.tasks == m.tasks
                &&& done.0.entries == m.entries
                &&& done.0.last_task_id == m.last_task_id
                &&& done.0.last_entry_id == m.last_entry_id
            },
            Err(error) => m.last_subtask_id == i64::MAX && error == TrackerError::Database(
                DatabaseFault::Full,
            ),
        },
{
    position_is_the_first(m.subtasks, subtask_has_key(subtask_key(name)));
    if let Ok(done) = m.upsert_subtask(name, now) {
        assert(done.0.subtasks.drop_last() == m.subtasks);
    }
}

// ---------------------------------------------------------------------------
// Timers
// ---------------------------------------------------------------------------

/// Ending entries sets when they end and nothing else, of those that run and, where
/// a task is given, belong to it.
pub proof fn ending_sets_the_end_alone(
    m: StoreModel,
    task_id: Option<i64>,
    now: Seq<char>,
    k: int,
)
    requires
        0 <= k < m.entries.len(),
    ensures
        ({
            let after = m.end_entries(task_id, now);
            let was = m.entries[k];
            let is = after.entries[k];
            &&& after.entries.len() == m.entries.len()
            &&& is.id == was.id
            &&& is.task_id == was.task_id
            &&& is.subtask_id == was.subtask_id
            &&& is.started_at == was.started_at
            &&& is.note == was.note
            &&& is.ended_at == (if was.ended_at is None && (task_id is None || task_id->Some_0
                == was.task_id) {
                Some(now)
            } else {
                was.ended_at
            })
            &&& after.tasks == m.tasks
            &&& after.subtasks == m.subtasks
            &&& after.last_task_id == m.last_task_id
            &&& after.last_subtask_id == m.last_subtask_id
            &&& after.last_entry_id == m.last_entry_id
        }),
{
}

/// Closing a task sets on its row when it was closed and updated, ends its entries
/// that run, and leaves all else as it is.
pub proof fn closing_sets_the_ends_alone(m: StoreModel, id: i64, now: Seq<char>, i: int, k: int)
    requires
        0 <= i < m.tasks.len(),
        0 <= k < m.entries.len(),
    ensures
        ({
            let after = m.close_task(id, now);
            let task = after.tasks[i];
            let entry = after.entries[k];
            &&& after.tasks.len() == m.tasks.len()
            &&& task.id == m.tasks[i].id
            &&& task.name == m.tasks[i].name
            &&& task.github_kind == m.tasks[i].github_kind
            &&& task.github_reference == m.tasks[i].github_reference
            &&& task.github_state == m.tasks[i].github_state
            &&& task.github_checked_at == m.tasks[i].github_checked_at
            &&& task.created_at == m.tasks[i].created_at
            &&& task.closed_at == (if m.tasks[i].id == id {
                Some(now)
            } else {
                m.tasks[i].closed_at
            })
            &&& task.updated_at == (if m.tasks[i].id == id {
                now
            } else {
                m.tasks[i].updated_at
            })
            &&& after.entries.len() == m.entries.len()
            &&& entry.id == m.entries[k].id
            &&& entry.task_id == m.entries[k].task_id
            &&& entry.subtask_id == m.entries[k].subtask_id
            &&& entry.started_at == m.entries[k].started_at
            &&& entry.note == m.entries[k].note
            &&& entry.ended_at == (if m.entries[k].task_id == id && m.entries[k].ended_at is None {
                Some(now)
            } else {
                m.entries[k].ended_at
            })
            &&& after.subtasks == m.subtasks
            &&& after.last_task_id == m.last_task_id
            &&& after.last_subtask_id == m.last_subtask_id
            &&& after.last_entry_id == m.last_entry_id
        }),
{
}

/// A timer can be started exactly where its task can be named, its subtask, if the
/// request names one, can be named, and an identifier is left for its entry.
pub proof fn a_timer_starts_where_its_parts_can_be_had(
    m: StoreModel,
    task: TaskInputModel,
    subtask: Option<Seq<char>>,
    note: Option<Seq<char>>,
    now: Seq<char>,
)
    ensures
        m.start_timer(task, subtask, note, now) is Ok <==> {
            &&& m.upsert_task(task, now) is Ok
            &&& (subtask is Some && trimmed(subtask->Some_0).len() > 0) ==> m.upsert_subtask(
                trimmed(subtask->Some_0),
                now,
            ) is Ok
            &&& m.last_entry_id < i64::MAX
        },
        (m.start_timer(task, subtask, note, now) matches Err(error) && error is MissingTaskName)
            <==> trimmed(task.name).len() == 0,
{
    lemma_timer_parts(m, task, subtask, note, now);
    if subtask is Some && trimmed(subtask->Some_0).len() > 0 {
        blank_names_are_empty(trimmed(subtask->Some_0));
        trimming_is_idempotent(subtask->Some_0);
    }
}

/// Ending entries has no bearing on how tasks and subtasks are named.
proof fn lemma_timer_parts(
    m: StoreModel,
    task: TaskInputModel,
    subtask: Option<Seq<char>>,
    note: Option<Seq<char>>,
    now: Seq<char>,
)
    ensures
        ({
            let stopped = m.end_entries(None, now);
            match (m.upsert_task(task, now), stopped.upsert_task(task, now)) {
                (Ok(a), Ok(b)) => {
                    &&& a.1 == b.1
                    &&& a.0.tasks == b.0.tasks
                    &&& a.0.last_task_id == b.0.last_task_id
                    &&& b.0.subtasks == m.subtasks
                    &&& b.0.entries == stopped.entries
                    &&& b.0.last_subtask_id == m.last_subtask_id
                    &&& b.0.last_entry_id == m.last_entry_id
                },
                (Err(a), Err(b)) => a == b,
                _ => false,
            }
        }),
{
    assert(m.end_entries(None, now).tasks == m.tasks);
}

/// A started timer names its task and its subtask as if they were named alone, and
/// adds one entry for them after all others: with an identifier that none has had,
/// started now, running, with the note that the request gives.
pub proof fn a_started_timer_is_as_asked(
    m: StoreModel,
    task: TaskInputModel,
    subtask: Option<Seq<char>>,
    note: Option<Seq<char>>,
    now: Seq<char>,
)
    requires
        m.start_timer(task, subtask, note, now) is Ok,
    ensures
        ({
            let done = m.start_timer(task, subtask, note, now)->Ok_0;
            let named = m.upsert_task(task, now)->Ok_0;
            let added = done.0.entries.last();
            let timer = done.1;
            &&& m.upsert_task(task, now) is Ok
            &&& timer.task == named.1
            &&& done.0.tasks == named.0.tasks
            &&& done.0.last_task_id == named.0.last_task_id
            &&& if subtask is Some && trimmed(subtask->Some_0).len() > 0 {
                let used = m.upsert_subtask(trimmed(subtask->Some_0), now);
                &&& used is Ok
                &&& timer.subtask == Some(used->Ok_0.1)
                &&& added.subtask_id == Some(used->Ok_0.1.id)
                &&& done.0.subtasks == used->Ok_0.0.subtasks
                &&& done.0.last_subtask_id == used->Ok_0.0.last_subtask_id
            } else {
                &&& timer.subtask is None
                &&& added.subtask_id is None
                &&& done.0.subtasks == m.subtasks
                &&& done.0.last_subtask_id == m.last_subtask_id
            }
            &&& done.0.entries.len() == m.entries.len() + 1
            &&& added.id == m.last_entry_id + 1
            &&& added.task_id == named.1.id
            &&& added.started_at == now
            &&& added.ended_at is None
            &&& is_kept_of(added.note, note)
            &&& done.0.last_entry_id == added.id
            &&& timer.entry_id == added.id
            &&& timer.started_at == now
            &&& timer.elapsed_seconds == 0
            &&& timer.note is None
        }),
{
    lemma_timer_parts(m, task, subtask, note, now);
    let done = m.start_timer(task, subtask, note, now)->Ok_0;
    if subtask is Some && trimmed(subtask->Some_0).len() > 0 {
        let name = trimmed(subtask->Some_0);
        assert(optional_name(subtask) == Some(name));
        let with_task = m.end_entries(None, now).upsert_task(task, now)->Ok_0;
        assert(with_task.0.subtasks == m.subtasks);
    }
}

/// Starting a timer ends what ran, now, and changes nothing else of the entries that
/// were there.
pub proof fn starting_ends_what_ran(
    m: StoreModel,
    task: TaskInputModel,
    subtask: Option<Seq<char>>,
    note: Option<Seq<char>>,
    now: Seq<char>,
    k: int,
)
    requires
        m.start_timer(task, subtask, note, now) is Ok,
        0 <= k < m.entries.len(),
    ensures
        ({
            let was = m.entries[k];
            let is = m.start_timer(task, subtask, note, now)->Ok_0.0.entries[k];
            &&& is.id == was.id
            &&& is.task_id == was.task_id
            &&& is.subtask_id == was.subtask_id
            &&& is.started_at == was.started_at
            &&& is.note == was.note
            &&& is.ended_at == (if was.ended_at is None {
                Some(now)
            } else {
                was.ended_at
            })
        }),
{
    lemma_timer_parts(m, task, subtask, note, now);
    one_timer_runs(m, task, subtask, note, now);
}

/// Noting the state of a task on GitHub sets it and when it was checked, on that
/// task alone.
pub proof fn noting_a_state_sets_it_alone(
    m: StoreModel,
    id: i64,
    state: Seq<char>,
    now: Seq<char>,
    i: int,
)
    requires
        0 <= i < m.tasks.len(),
    ensures
        ({
            let after = m.record_github_state(id, state, now);
            let was = m.tasks[i];
            let is = after.tasks[i];
            &&& after.tasks.len() == m.tasks.len()
            &&& is.id == was.id
            &&& is.name == was.name
            &&& is.github_kind == was.github_kind
            &&& is.github_reference == was.github_reference
            &&& is.github_state == (if was.id == id {
                Some(state)
            } else {
                was.github_state
            })
            &&& is.github_checked_at == (if was.id == id {
                Some(now)
            } else {
                was.github_checked_at
            })
            &&& is.closed_at == was.closed_at
            &&& is.created_at == was.created_at
            &&& is.updated_at == was.updated_at
            &&& after.subtasks == m.subtasks
            &&& after.entries == m.entries
            &&& after.last_task_id == m.last_task_id
            &&& after.last_subtask_id == m.last_subtask_id
            &&& after.last_entry_id == m.last_entry_id
        }),
{
}

// ---------------------------------------------------------------------------
// Shown entries
// ---------------------------------------------------------------------------

/// An entry is shown as it was recorded, with the name and the links of its task and
/// the name of its subtask, and with the seconds it lasts; none where its times
/// cannot be read.
pub proof fn an_entry_is_shown_as_recorded(
    m: StoreModel,
    entry: TimeEntryModel,
    now: Timestamp,
    i: int,
    j: int,
)
    requires
        m.wf(),
        0 <= i < m.tasks.len(),
        m.tasks[i].id == entry.task_id,
        entry.subtask_id is Some ==> 0 <= j < m.subtasks.len() && m.subtasks[j].id
            == entry.subtask_id->Some_0,
    ensures
        ({
            let view = m.entry_view(entry, now);
            &&& view.id == entry.id
            &&& view.task_id == entry.task_id
            &&& view.task_name == m.tasks[i].name
            &&& view.github_kind == m.tasks[i].github_kind
            &&& view.github_reference == m.tasks[i].github_reference
            &&& view.subtask_id == entry.subtask_id
            &&& view.subtask_name == (if entry.subtask_id is Some {
                Some(m.subtasks[j].name)
            } else {
                None
            })
            &&& view.started_at == entry.started_at
            &&& view.ended_at == entry.ended_at
            &&& view.note == entry.note
            &&& match entry_seconds(entry.started_at, entry.ended_at, now) {
                Ok(seconds) => seconds <= i64::MAX ==> view.duration_seconds == seconds,
                Err(_) => view.duration_seconds == 0,
            }
        }),
{
    lemma_task_place(m, i);
    if entry.subtask_id is Some {
        lemma_subtask_place(m, j);
    }
}

/// Shown by its identifier, an entry is the one that has it; where none has, there is
/// none to show.
pub proof fn entries_are_shown_by_identifier(m: StoreModel, id: i64, now: Timestamp)
    ensures
        match m.entry_view_by_id(id, now) {
            Ok(view) => exists|k: int|
                0 <= k < m.entries.len() && (#[trigger] m.entries[k]).id == id && view
                    == m.entry_view(m.entries[k], now),
            Err(error) => error == TrackerError::Database(DatabaseFault::NoRows) && forall|k: int|
                0 <= k < m.entries.len() ==> (#[trigger] m.entries[k]).id != id,
        },
{
    position_is_the_first(m.entries, entry_has_id(id));
    match m.entry_at(id) {
        Some(i) => {
            assert(m.entries[i].id == id);
        },
        None => {
            assert forall|k: int| 0 <= k < m.entries.len() implies (#[trigger] m.entries[k]).id
                != id by {
                assert(!entry_has_id(id)(m.entries[k]));
            }
        },
    }
}

// ---------------------------------------------------------------------------
// The timer that runs
// ---------------------------------------------------------------------------

/// Whether no entry that passes a test started after one of them, or with it and was
/// recorded later.
pub open spec fn is_newest_of(
    entries: Seq<TimeEntryModel>,
    test: spec_fn(TimeEntryModel) -> bool,
    i: int,
) -> bool {
    &&& 0 <= i < entries.len()
    &&& test(entries[i])
    &&& forall|k: int|
        0 <= k < entries.len() && test(#[trigger] entries[k]) ==> !text_before(
            entries[i].started_at,
            entries[k].started_at,
        ) && (entries[k].started_at == entries[i].started_at ==> entries[k].id <= entries[i].id)
}

/// The first of sorted entries is the newest.
proof fn lemma_first_is_newest(
    entries: Seq<TimeEntryModel>,
    test: spec_fn(TimeEntryModel) -> bool,
) -> (i: int)
    requires
        newest(entries.filter(test)).len() > 0,
    ensures
        is_newest_of(entries, test, i),
        entries[i] == newest(entries.filter(test))[0],
{
    let kept = entries.filter(test);
    let sorted = newest(kept);
    lemma_picked_are_recorded(entries, test);
    assert(entries.contains(sorted[0]));
    let i = choose|i: int| 0 <= i < entries.len() && entries[i] == sorted[0];
    newest_first_can_sort();
    sorted_items_were_there(kept, newest_first());
    sorting_orders_the_same_items(kept, newest_first());
    assert forall|k: int|
        0 <= k < entries.len() && test(#[trigger] entries[k]) implies !text_before(
        entries[i].started_at,
        entries[k].started_at,
    ) && (entries[k].started_at == entries[i].started_at ==> entries[k].id <= entries[i].id) by {
        assert(entries.contains(entries[k]));
        passing_items_are_kept(entries, test, entries[k]);
        assert(sorted.contains(entries[k]));
        let p = choose|p: int| 0 <= p < sorted.len() && sorted[p] == entries[k];
        if p == 0 {
            text_order_is_irreflexive(entries[i].started_at);
        } else {
            assert(!newest_first()(sorted[p], sorted[0]));
        }
    }
    i
}

/// Sorting what passes leaves nothing exactly where nothing passes.
proof fn lemma_none_sorted(entries: Seq<TimeEntryModel>, test: spec_fn(TimeEntryModel) -> bool)
    ensures
        newest(entries.filter(test)).len() == 0 <==> forall|k: int|
            0 <= k < entries.len() ==> !test(#[trigger] entries[k]),
{
    let kept = entries.filter(test);
    newest_are_recorded(kept);
    if kept.len() > 0 {
        lemma_picked_are_recorded(entries, test);
        let first = newest(kept)[0];
        assert(entries.contains(first));
        let k = choose|k: int| 0 <= k < entries.len() && entries[k] == first;
        assert(test(entries[k]));
    } else {
        assert forall|k: int| 0 <= k < entries.len() implies !test(#[trigger] entries[k]) by {
            if test(entries[k]) {
                assert(entries.contains(entries[k]));
                passing_items_are_kept(entries, test, entries[k]);
            }
        }
    }
}

/// The active timer is that of the running entry that started last: its task, its
/// subtask, its start and its note, and the seconds until now. There is none exactly
/// where no entry runs.
pub proof fn the_active_timer_is_the_newest_running(m: StoreModel, now: Timestamp)
    requires
        m.wf(),
    ensures
        match m.active_timer(now) {
            None => forall|k: int|
                0 <= k < m.entries.len() ==> (#[trigger] m.entries[k]).ended_at is Some,
            Some(timer) => exists|i: int|
                {
                    let entry = #[trigger] m.entries[i];
                    &&& is_newest_of(m.entries, |e: TimeEntryModel| e.ended_at is None, i)
                    &&& timer.entry_id == entry.id
                    &&& timer.started_at == entry.started_at
                    &&& timer.note == entry.note
                    &&& timer.task.id == entry.task_id && m.tasks.contains(timer.task)
                    &&& match entry.subtask_id {
                        None => timer.subtask is None,
                        Some(id) => timer.subtask is Some && timer.subtask->Some_0.id == id
                            && m.subtask(id) == Ok::<SubtaskModel, TrackerError>(
                            timer.subtask->Some_0,
                        ),
                    }
                    &&& match entry_seconds(entry.started_at, None, now) {
                        Ok(seconds) => seconds <= i64::MAX ==> timer.elapsed_seconds == seconds,
                        Err(_) => timer.elapsed_seconds == 0,
                    }
                },
        },
{
    let test = |e: TimeEntryModel| e.ended_at is None;
    assert(runs() =~= test);
    lemma_none_sorted(m.entries, runs());
    if let Some(timer) = m.active_timer(now) {
        let i = lemma_first_is_newest(m.entries, runs());
        let entry = m.entries[i];
        assert(m.resolves(m.entries[i]));
        positions_find_rows(m, entry.task_id);
        let t = m.task_at(entry.task_id)->Some_0;
        assert(m.tasks[t] == timer.task);
        if let Some(id) = entry.subtask_id {
            positions_find_subtasks(m, id);
        }
    } else {
        assert forall|k: int| 0 <= k < m.entries.len() implies (
        #[trigger] m.entries[k]).ended_at is Some by {
            assert(!runs()(m.entries[k]));
        }
    }
}

/// Stopping ends, now, the running entry that started last, changes nothing else of
/// it and no other entry, and shows it; where no entry runs it changes nothing.
pub proof fn stopping_sets_the_end_alone(m: StoreModel, now: Timestamp)
    requires
        m.wf(),
    ensures
        ({
            let stopped = m.stop_timer(now);
            match stopped.1 {
                None => stopped.0 == m && forall|k: int|
                    0 <= k < m.entries.len() ==> (#[trigger] m.entries[k]).ended_at is Some,
                Some(view) => exists|i: int|
                    {
                        let was = #[trigger] m.entries[i];
                        let is = stopped.0.entries[i];
                        &&& is_newest_of(m.entries, |e: TimeEntryModel| e.ended_at is None, i)
                        &&& is.id == was.id
                        &&& is.task_id == was.task_id
                        &&& is.subtask_id == was.subtask_id
                        &&& is.started_at == was.started_at
                        &&& is.ended_at == Some(utc_text(now))
                        &&& is.note == was.note
                        &&& stopped.0.entries.len() == m.entries.len()
                        &&& forall|k: int|
                            0 <= k < m.entries.len() && k != i
                                ==> #[trigger] stopped.0.entries[k] == m.entries[k]
                        &&& stopped.0.tasks == m.tasks
                        &&& stopped.0.subtasks == m.subtasks
                        &&& stopped.0.last_task_id == m.last_task_id
                        &&& stopped.0.last_subtask_id == m.last_subtask_id
                        &&& stopped.0.last_entry_id == m.last_entry_id
                        &&& view == stopped.0.entry_view(is, now)
                    },
            }
        }),
{
    let test = |e: TimeEntryModel| e.ended_at is None;
    assert(runs() =~= test);
    lemma_none_sorted(m.entries, runs());
    let stopped = m.stop_timer(now);
    if stopped.1 is Some {
        let i = lemma_first_is_newest(m.entries, runs());
        let first = m.entries[i];
        assert(m.entries.contains(first));
        lemma_recorded_has_place(m, first);
        lemma_end_entry_fits(m, first.id, utc_text(now));
        let p = m.entry_at(first.id)->Some_0;
        if p < i {
            assert(m.entries[p].id < m.entries[i].id);
        }
        if i < p {
            assert(m.entries[i].id < m.entries[p].id);
        }
        assert(stopped.0.entries[i].ended_at == Some(utc_text(now)));
    } else {
        assert forall|k: int| 0 <= k < m.entries.len() implies (
        #[trigger] m.entries[k]).ended_at is Some by {
            assert(!runs()(m.entries[k]));
        }
    }
}

/// The subtask that a task had last is that of its entry that started last.
pub proof fn the_last_subtask_is_that_of_the_newest_entry(m: StoreModel, task_id: i64)
    requires
        m.wf(),
    ensures
        (forall|k: int| 0 <= k < m.entries.len() ==> (#[trigger] m.entries[k]).task_id != task_id)
            ==> m.latest_subtask_name(task_id) is None,
        forall|i: int|
            #![trigger m.entries[i]]
            is_newest_of(m.entries, |e: TimeEntryModel| e.task_id == task_id, i) ==> {
                match m.entries[i].subtask_id {
                    None => m.latest_subtask_name(task_id) is None,
                    Some(id) => m.subtask(id) matches Ok(subtask) && m.latest_subtask_name(task_id)
                        == Some(subtask.name),
                }
            },
{
    let test = |e: TimeEntryModel| e.task_id == task_id;
    assert(of_task(task_id) =~= test);
    lemma_none_sorted(m.entries, of_task(task_id));
    assert forall|i: int|
        #![trigger m.entries[i]]
        is_newest_of(m.entries, test, i) implies {
        match m.entries[i].subtask_id {
            None => m.latest_subtask_name(task_id) is None,
            Some(id) => m.subtask(id) matches Ok(subtask) && m.latest_subtask_name(task_id) == Some(
                subtask.name,
            ),
        }
    } by {
        assert(of_task(task_id)(m.entries[i]));
        let p = lemma_first_is_newest(m.entries, of_task(task_id));
        text_order_is_total(m.entries[i].started_at, m.entries[p].started_at);
        if p < i {
            assert(m.entries[p].id < m.entries[i].id);
        }
        if i < p {
            assert(m.entries[i].id < m.entries[p].id);
        }
        assert(p == i);
        assert(m.resolves(m.entries[i]));
        if let Some(id) = m.entries[i].subtask_id {
            positions_find_subtasks(m, id);
        }
    }
}

/// Starting a task that is there is starting a timer with what its row holds, with
/// the subtask it had last and without a note.
pub proof fn starting_again_asks_for_what_is_there(m: StoreModel, i: int, now: Seq<char>)
    requires
        m.wf(),
        0 <= i < m.tasks.len(),
    ensures
        ({
            let row = m.tasks[i];
            let asked = TaskInputModel {
                name: row.name,
                github_kind: row.github_kind,
                github_reference: row.github_reference,
                github_state: row.github_state,
            };
            m.start_existing_task(row.id, now) == m.start_timer(
                asked,
                m.latest_subtask_name(row.id),
                None,
                now,
            )
        }),
{
    lemma_task_place(m, i);
}

// ---------------------------------------------------------------------------
// Renaming, archiving and assigning subtasks
// ---------------------------------------------------------------------------

/// Renaming a subtask to a name that no other has sets its name and its key, and
/// nothing else.
pub proof fn renaming_sets_the_name_alone(m: StoreModel, id: i64, name: Seq<char>)
    requires
        m.wf(),
        subtask_name(name).len() > 0,
        forall|k: int|
            0 <= k < m.subtasks.len() && (#[trigger] m.subtasks[k]).id != id
                ==> m.subtasks[k].name_key != subtask_key(name),
    ensures
        m.renamed_subtask(id, name) matches Ok(after) && {
            &&& after.subtasks.len() == m.subtasks.len()
            &&& forall|k: int|
                #![trigger after.subtasks[k]]
                0 <= k < m.subtasks.len() ==> {
                    let was = m.subtasks[k];
                    let is = after.subtasks[k];
                    &&& is.id == was.id
                    &&& is.name == (if was.id == id {
                        subtask_name(name)
                    } else {
                        was.name
                    })
                    &&& is.name_key == (if was.id == id {
                        subtask_key(name)
                    } else {
                        was.name_key
                    })
                    &&& is.archived_at == was.archived_at
                    &&& is.created_at == was.created_at
                }
            &&& after.tasks == m.tasks
            &&& after.entries == m.entries
            &&& after.last_task_id == m.last_task_id
            &&& after.last_subtask_id == m.last_subtask_id
            &&& after.last_entry_id == m.last_entry_id
        },
{
    let test = another_has_key(subtask_key(name), id);
    position_is_the_first(m.subtasks, test);
    if let Some(t) = position(m.subtasks, test) {
        assert(m.subtasks[t].id != id);
    }
    lemma_changed_row(m, id);
}

/// Where the row with an identifier stands, no other row has it.
proof fn lemma_changed_row(m: StoreModel, id: i64)
    requires
        m.wf(),
    ensures
        match m.subtask_at(id) {
            Some(i) => 0 <= i < m.subtasks.len() && forall|k: int|
                0 <= k < m.subtasks.len() ==> ((#[trigger] m.subtasks[k]).id == id <==> k == i),
            None => forall|k: int|
                0 <= k < m.subtasks.len() ==> (#[trigger] m.subtasks[k]).id != id,
        },
{
    position_is_the_first(m.subtasks, subtask_has_id(id));
    match m.subtask_at(id) {
        Some(i) => {
            assert forall|k: int| 0 <= k < m.subtasks.len() implies ((#[trigger] m.subtasks[k]).id
                == id <==> k == i) by {
                if k < i {
                    assert(m.subtasks[k].id < m.subtasks[i].id);
                }
                if i < k {
                    assert(m.subtasks[i].id < m.subtasks[k].id);
                }
            }
        },
        None => {
            assert forall|k: int| 0 <= k < m.subtasks.len() implies (#[trigger] m.subtasks[k]).id
                != id by {
                assert(!subtask_has_id(id)(m.subtasks[k]));
            }
        },
    }
}

/// Renaming a subtask to a name that another has moves its entries to that one, sets
/// nothing else of them, and removes its row; all other rows stay, in their order.
pub proof fn merging_moves_entries_alone(m: StoreModel, id: i64, name: Seq<char>, t: int)
    requires
        m.wf(),
        0 <= t < m.subtasks.len(),
        m.subtasks[t].id != id,
        m.subtasks[t].name_key == subtask_key(name),
        subtask_name(name).len() > 0,
    ensures
        m.renamed_subtask(id, name) matches Ok(after) && {
            &&& after.entries.len() == m.entries.len()
            &&& forall|k: int|
                #![trigger after.entries[k]]
                0 <= k < m.entries.len() ==> {
                    let was = m.entries[k];
                    let is = after.entries[k];
                    &&& is.id == was.id
                    &&& is.task_id == was.task_id
                    &&& is.subtask_id == (if was.subtask_id == Some(id) {
                        Some(m.subtasks[t].id)
                    } else {
                        was.subtask_id
                    })
                    &&& is.started_at == was.started_at
                    &&& is.ended_at == was.ended_at
                    &&& is.note == was.note
                }
            &&& after.subtasks == m.subtasks.filter(|row: SubtaskRowModel| row.id != id)
            &&& after.tasks == m.tasks
            &&& after.last_task_id == m.last_task_id
            &&& after.last_subtask_id == m.last_subtask_id
            &&& after.last_entry_id == m.last_entry_id
        },
{
    let test = another_has_key(subtask_key(name), id);
    assert forall|j: int| 0 <= j < t implies !test(#[trigger] m.subtasks[j]) by {
        assert(m.subtasks[j].name_key != m.subtasks[t].name_key);
    }
    lemma_position_found(m.subtasks, test, t);
    lemma_changed_row(m, id);
    let moved = m.move_entries(id, m.subtasks[t].id);
    assert(moved.subtask_at(id) == m.subtask_at(id));
    let others = |row: SubtaskRowModel| row.id != id;
    match m.subtask_at(id) {
        Some(i) => lemma_all_but_one(m.subtasks, others, i),
        None => lemma_all_kept(m.subtasks, others),
    }
}

/// A filter that one item alone fails removes that item.
proof fn lemma_all_but_one<T>(s: Seq<T>, test: spec_fn(T) -> bool, i: int)
    requires
        0 <= i < s.len(),
        forall|k: int| 0 <= k < s.len() ==> (test(#[trigger] s[k]) <==> k != i),
    ensures
        s.filter(test) == s.remove(i),
    decreases s.len(),
{
    reveal(Seq::filter);
    let t = s.drop_last();
    assert(s[s.len() - 1] == s.last());
    assert forall|k: int| 0 <= k < t.len() implies t[k] == #[trigger] s[k] by {}
    if i == s.len() - 1 {
        assert forall|k: int| 0 <= k < t.len() implies test(#[trigger] t[k]) by {
            assert(t[k] == s[k]);
        }
        lemma_all_kept(t, test);
        assert(s.remove(i) == t);
    } else {
        assert forall|k: int| 0 <= k < t.len() implies (test(#[trigger] t[k]) <==> k != i) by {
            assert(t[k] == s[k]);
        }
        lemma_all_but_one(t, test, i);
        assert(s.remove(i) == t.remove(i).push(s.last()));
    }
}

/// A filter that every item passes keeps them all.
proof fn lemma_all_kept<T>(s: Seq<T>, test: spec_fn(T) -> bool)
    requires
        forall|k: int| 0 <= k < s.len() ==> test(#[trigger] s[k]),
    ensures
        s.filter(test) == s,
    decreases s.len(),
{
    reveal(Seq::filter);
    if s.len() > 0 {
        let t = s.drop_last();
        assert forall|k: int| 0 <= k < t.len() implies test(#[trigger] t[k]) by {
            assert(t[k] == s[k]);
        }
        lemma_all_kept(t, test);
        assert(s[s.len() - 1] == s.last());
        assert(t.push(s.last()) == s);
    }
}

/// Archiving a subtask sets when it was archived, restoring takes that away, and
/// neither changes anything else.
pub proof fn archiving_sets_its_time_alone(
    m: StoreModel,
    id: i64,
    archived: bool,
    now: Timestamp,
    k: int,
)
    requires
        m.wf(),
        0 <= k < m.subtasks.len(),
    ensures
        ({
            let done = m.set_subtask_archived(id, archived, now);
            let was = m.subtasks[k];
            let is = done.0.subtasks[k];
            &&& done.0.subtasks.len() == m.subtasks.len()
            &&& is.id == was.id
            &&& is.name == was.name
            &&& is.name_key == was.name_key
            &&& is.created_at == was.created_at
            &&& is.archived_at == (if was.id != id {
                was.archived_at
            } else if archived {
                Some(utc_text(now))
            } else {
                None
            })
            &&& done.0.tasks == m.tasks
            &&& done.0.entries == m.entries
            &&& done.0.last_task_id == m.last_task_id
            &&& done.0.last_subtask_id == m.last_subtask_id
            &&& done.0.last_entry_id == m.last_entry_id
            &&& done.1 == done.0.list_subtasks(now)
        }),
{
    lemma_changed_row(m, id);
}

/// Giving an entry a subtask names the subtask as if it were named alone, sets it on
/// that entry, or takes it away where the request names none, and changes nothing
/// else: neither the rest of that entry nor any other.
pub proof fn assigning_sets_the_subtask_alone(
    m: StoreModel,
    id: i64,
    name: Option<Seq<char>>,
    now: Timestamp,
    i: int,
)
    requires
        m.wf(),
        0 <= i < m.entries.len(),
        m.entries[i].id == id,
        m.update_time_entry_subtask(id, name, now) is Ok,
    ensures
        ({
            let done = m.update_time_entry_subtask(id, name, now)->Ok_0;
            let was = m.entries[i];
            let is = done.0.entries[i];
            &&& done.0.entries.len() == m.entries.len()
            &&& is.id == was.id
            &&& is.task_id == was.task_id
            &&& is.started_at == was.started_at
            &&& is.ended_at == was.ended_at
            &&& is.note == was.note
            &&& if name is Some && trimmed(name->Some_0).len() > 0 {
                let used = m.upsert_subtask(trimmed(name->Some_0), utc_text(now));
                &&& used is Ok
                &&& is.subtask_id == Some(used->Ok_0.1.id)
                &&& done.0.subtasks == used->Ok_0.0.subtasks
                &&& done.0.last_subtask_id == used->Ok_0.0.last_subtask_id
                &&& exists|k: int|
                    0 <= k < done.0.subtasks.len() && (#[trigger] done.0.subtasks[k]).name_key
                        == subtask_key(name->Some_0) && is.subtask_id == Some(
                        done.0.subtasks[k].id,
                    )
            } else {
                &&& is.subtask_id is None
                &&& done.0.subtasks == m.subtasks
                &&& done.0.last_subtask_id == m.last_subtask_id
            }
            &&& forall|k: int|
                0 <= k < m.entries.len() && k != i ==> #[trigger] done.0.entries[k] == m.entries[k]
            &&& done.0.tasks == m.tasks
            &&& done.0.last_task_id == m.last_task_id
            &&& done.0.last_entry_id == m.last_entry_id
            &&& done.1 == done.0.entry_view(is, now)
        }),
{
    let done = m.update_time_entry_subtask(id, name, now)->Ok_0;
    let test = entry_has_id(id);
    assert forall|j: int| 0 <= j < i implies !test(#[trigger] m.entries[j]) by {
        assert(m.entries[j].id < m.entries[i].id);
    }
    lemma_position_found(m.entries, test, i);
    let named = m.upsert_named_subtask(name, utc_text(now))->Ok_0;
    assert(named.0.entries == m.entries);
    assert(named.0.entry_at(id) == Some(i));
    let after = named.0.set_entry_subtask(id, subtask_id_of(named.1));
    assert forall|j: int| 0 <= j < i implies !test(#[trigger] after.entries[j]) by {
        assert(m.entries[j].id < m.entries[i].id);
    }
    lemma_position_found(after.entries, test, i);
    if name is Some && trimmed(name->Some_0).len() > 0 {
        let text = trimmed(name->Some_0);
        a_named_subtask_is_in_use(m, text, utc_text(now));
        surrounding_spaces_do_not_matter(name->Some_0);
        let used = m.upsert_subtask(text, utc_text(now))->Ok_0;
        let k = choose|k: int|
            0 <= k < used.0.subtasks.len() && (#[trigger] used.0.subtasks[k]).shown() == used.1
                && used.0.subtasks[k].archived_at is None && used.0.subtasks[k].name_key
                == subtask_key(text);
        assert(done.0.subtasks[k].name_key == subtask_key(name->Some_0));
    }
}

/// No subtask is assigned to an entry that is not there, and none is created for it;
/// an entry that is there gets one wherever the subtask can be named.
pub proof fn assigning_needs_its_entry(
    m: StoreModel,
    id: i64,
    name: Option<Seq<char>>,
    now: Timestamp,
)
    ensures
        (forall|k: int| 0 <= k < m.entries.len() ==> (#[trigger] m.entries[k]).id != id) ==> (
        m.update_time_entry_subtask(id, name, now) matches Err(error) && error
            == TrackerError::Database(DatabaseFault::NoRows)),
        (exists|k: int| 0 <= k < m.entries.len() && (#[trigger] m.entries[k]).id == id) ==> (
        m.update_time_entry_subtask(id, name, now) is Ok <==> ((name is Some && trimmed(
            name->Some_0,
        ).len() > 0) ==> m.upsert_subtask(trimmed(name->Some_0), utc_text(now)) is Ok)),
{
    position_is_the_first(m.entries, entry_has_id(id));
    if exists|k: int| 0 <= k < m.entries.len() && (#[trigger] m.entries[k]).id == id {
        let k = choose|k: int| 0 <= k < m.entries.len() && (#[trigger] m.entries[k]).id == id;
        assert(entry_has_id(id)(m.entries[k]));
    }
}

/// A created task is a named task with the subtasks recorded against it, and a
/// created subtask is a named subtask with the list of them all; a renamed subtask
/// comes with that list too.
pub proof fn creating_is_naming(
    m: StoreModel,
    input: TaskInputModel,
    id: i64,
    name: Seq<char>,
    now: Timestamp,
)
    ensures
        match (m.create_task(input, utc_text(now)), m.upsert_task(input, utc_text(now))) {
            (Ok(created), Ok(named)) => {
                &&& created.0 == named.0
                &&& created.1.task == named.1
                &&& created.1.subtasks == named.0.subtasks_for_task(named.1.id)
            },
            (Err(a), Err(b)) => a == b,
            _ => false,
        },
        match m.upsert_subtask(name, utc_text(now)) {
            Ok(named) => m.create_subtask(name, now).0 == named.0 && m.create_subtask(name, now).1
                == named.0.list_subtasks(now),
            Err(error) => m.create_subtask(name, now).0 == m && m.create_subtask(name, now).1
                == Err::<Seq<SubtaskViewModel>, TrackerError>(error),
        },
        match m.renamed_subtask(id, name) {
            Ok(after) => m.rename_subtask(id, name, now).0 == after && m.rename_subtask(
                id,
                name,
                now,
            ).1 == after.list_subtasks(now),
            Err(error) => m.rename_subtask(id, name, now).0 == m && m.rename_subtask(
                id,
                name,
                now,
            ).1 == Err::<Seq<SubtaskViewModel>, TrackerError>(error),
        },
{
}

// ---------------------------------------------------------------------------
// What the tables keep to
// ---------------------------------------------------------------------------

/// The tables are as they should be exactly where identifiers ascend and none is above
/// the last one given out, no two tasks have the same name and no two subtasks the
/// same key, and every entry has a task that is there and a subtask that is there or
/// none.
pub proof fn the_tables_keep_to_this(m: StoreModel)
    ensures
        m.wf() <==> {
            &&& forall|i: int, j: int|
                0 <= i < j < m.tasks.len() ==> (#[trigger] m.tasks[i]).id < (
                #[trigger] m.tasks[j]).id && m.tasks[i].name != m.tasks[j].name
            &&& forall|i: int, j: int|
                0 <= i < j < m.subtasks.len() ==> (#[trigger] m.subtasks[i]).id < (
                #[trigger] m.subtasks[j]).id && m.subtasks[i].name_key != m.subtasks[j].name_key
            &&& forall|i: int, j: int|
                0 <= i < j < m.entries.len() ==> (#[trigger] m.entries[i]).id < (
                #[trigger] m.entries[j]).id
            &&& forall|i: int|
                0 <= i < m.tasks.len() ==> (#[trigger] m.tasks[i]).id <= m.last_task_id
            &&& forall|i: int|
                0 <= i < m.subtasks.len() ==> (#[trigger] m.subtasks[i]).id <= m.last_subtask_id
            &&& forall|i: int|
                0 <= i < m.entries.len() ==> (#[trigger] m.entries[i]).id <= m.last_entry_id
            &&& forall|k: int|
                0 <= k < m.entries.len() ==> exists|i: int|
                    0 <= i < m.tasks.len() && (#[trigger] m.tasks[i]).id == (
                    #[trigger] m.entries[k]).task_id
            &&& forall|k: int|
                0 <= k < m.entries.len() && (#[trigger] m.entries[k]).subtask_id is Some
                    ==> exists|i: int|
                    0 <= i < m.subtasks.len() && (#[trigger] m.subtasks[i]).id
                        == m.entries[k].subtask_id->Some_0
        },
{
    if m.wf() {
        assert forall|k: int| 0 <= k < m.entries.len() implies exists|i: int|
            0 <= i < m.tasks.len() && (#[trigger] m.tasks[i]).id == (
            #[trigger] m.entries[k]).task_id by {
            assert(m.resolves(m.entries[k]));
        }
        assert forall|k: int|
            0 <= k < m.entries.len() && (
            #[trigger] m.entries[k]).subtask_id is Some implies exists|i: int|
            0 <= i < m.subtasks.len() && (#[trigger] m.subtasks[i]).id
                == m.entries[k].subtask_id->Some_0 by {
            assert(m.resolves(m.entries[k]));
        }
    }
}

} // verus!
