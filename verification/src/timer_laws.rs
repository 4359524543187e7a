//! What holds of timers and tasks, whatever is asked of them.

use vstd::prelude::*;
use crate::clock::{at_least_zero, utc_text, Timestamp};
use crate::entries::{newest, newest_first, newest_first_can_sort};
use crate::error::{DatabaseFault, TrackerError};
use crate::lists::{
    filtered_items_were_there, lemma_filter_push, lemma_position_found, nothing_passes,
    passing_items_are_kept, position, position_is_the_first, sorted_items_were_there,
    sorting_orders_the_same_items, stable_sorted,
};
use crate::names::{optional_name, subtask_key};
use crate::records::{ActiveTimerModel, SubtaskModel, TaskInputModel, TaskModel, TimeEntryModel};
use crate::store::{
    ending, entry_has_id, lemma_end_entries_fits, lemma_upsert_subtask_fits, lemma_upsert_task_fits,
    positions_find_rows, subtask_has_key, task_has_id, task_has_name, StoreModel,
};
use crate::subtask_laws::lemma_subtask_place;
use crate::tasks::{is_open, latest_first, latest_first_can_sort};
use crate::text::trimmed;
use crate::timers::{
    closing, lemma_add_entry_fits, lemma_end_entry_fits, lemma_picked_are_recorded,
    lemma_recorded_has_place, runs, subtask_id_of,
};
use crate::written_time::{
    can_be_written, instants_are_written_by_the_second, recorded_time_is_the_time_between,
    whole_second,
};

verus! {

// ---------------------------------------------------------------------------
// Starting
// ---------------------------------------------------------------------------

/// Starting a timer records one more entry, the only one that runs. The others
/// stay, and those that ran end now.
pub proof fn one_timer_runs(
    m: StoreModel,
    task: TaskInputModel,
    subtask_name: Option<Seq<char>>,
    note: Option<Seq<char>>,
    now: Seq<char>,
)
    requires
        m.start_timer(task, subtask_name, note, now) is Ok,
    ensures
        ({
            let done = m.start_timer(task, subtask_name, note, now)->Ok_0;
            let n = m.entries.len() as int;
            &&& done.0.entries.len() == n + 1
            &&& done.0.entries[n] == (TimeEntryModel {
                id: done.1.entry_id,
                task_id: done.1.task.id,
                subtask_id: subtask_id_of(done.1.subtask),
                started_at: now,
                ended_at: None,
                note: optional_name(note),
            })
            &&& forall|k: int|
                0 <= k < n ==> (#[trigger] done.0.entries[k]).ended_at is Some && done.0.entries[k]
                    == ending(None, now)(m.entries[k])
        }),
{
}

/// A row of one item is sorted.
proof fn lemma_one_is_sorted(entry: TimeEntryModel)
    ensures
        newest(seq![entry]) == seq![entry],
{
    let s = seq![entry];
    let empty = Seq::<TimeEntryModel>::empty();
    assert(s.drop_last() == empty);
    assert(stable_sorted(empty, newest_first()) == empty);
    assert(empty.push(entry) == s);
}

/// The running entries after a timer was started.
proof fn lemma_only_one_runs(entries: Seq<TimeEntryModel>)
    requires
        entries.len() > 0,
        entries.last().ended_at is None,
        forall|k: int| 0 <= k < entries.len() - 1 ==> (#[trigger] entries[k]).ended_at is Some,
    ensures
        newest(entries.filter(runs())) == seq![entries.last()],
{
    let rest = entries.drop_last();
    assert forall|k: int| 0 <= k < rest.len() implies !runs()(#[trigger] rest[k]) by {
        assert(rest[k] == entries[k]);
    }
    nothing_passes(rest, runs());
    assert(entries == rest.push(entries.last()));
    lemma_filter_push(rest, entries.last(), runs());
    assert(entries.filter(runs()) == seq![entries.last()]);
    lemma_one_is_sorted(entries.last());
}

/// The task with an identifier stands where it is found.
pub proof fn lemma_task_place(m: StoreModel, i: int)
    requires
        m.wf(),
        0 <= i < m.tasks.len(),
    ensures
        m.task_at(m.tasks[i].id) == Some(i),
{
    let test = task_has_id(m.tasks[i].id);
    assert forall|j: int| 0 <= j < i implies !test(#[trigger] m.tasks[j]) by {
        assert(m.tasks[j].id < m.tasks[i].id);
    }
    lemma_position_found(m.tasks, test, i);
}

/// A described task is there.
proof fn lemma_described_task_is_there(m: StoreModel, input: TaskInputModel, now: Seq<char>)
    requires
        m.wf(),
        m.upsert_task(input, now) is Ok,
    ensures
        ({
            let done = m.upsert_task(input, now)->Ok_0;
            done.0.wf() && done.0.task(done.1.id) == Ok::<TaskModel, TrackerError>(done.1)
                && done.0.tasks.contains(done.1)
        }),
{
    let done = m.upsert_task(input, now)->Ok_0;
    lemma_upsert_task_fits(m, input, now);
    position_is_the_first(m.tasks, task_has_name(trimmed(input.name)));
    let i = match position(m.tasks, task_has_name(trimmed(input.name))) {
        Some(i) => i,
        None => m.tasks.len() as int,
    };
    assert(done.0.tasks[i] == done.1);
    lemma_task_place(done.0, i);
}

/// A named subtask is there.
proof fn lemma_named_subtask_is_there(m: StoreModel, name: Seq<char>, now: Seq<char>)
    requires
        m.wf(),
        m.upsert_subtask(name, now) is Ok,
    ensures
        ({
            let done = m.upsert_subtask(name, now)->Ok_0;
            done.0.subtask(done.1.id) == Ok::<SubtaskModel, TrackerError>(done.1)
        }),
{
    let done = m.upsert_subtask(name, now)->Ok_0;
    let test = subtask_has_key(subtask_key(name));
    lemma_upsert_subtask_fits(m, name, now);
    position_is_the_first(m.subtasks, test);
    let i = match position(m.subtasks, test) {
        Some(i) => i,
        None => m.subtasks.len() as int,
    };
    assert(done.0.subtasks[i].shown() == done.1);
    lemma_subtask_place(done.0, i);
}

/// The timer that was started is the one that is active.
pub proof fn the_started_timer_is_active(
    m: StoreModel,
    task: TaskInputModel,
    subtask_name: Option<Seq<char>>,
    note: Option<Seq<char>>,
    now: Seq<char>,
    at: Timestamp,
)
    requires
        m.wf(),
        m.start_timer(task, subtask_name, note, now) is Ok,
    ensures
        ({
            let done = m.start_timer(task, subtask_name, note, now)->Ok_0;
            done.0.active_timer(at) matches Some(active) && active.entry_id == done.1.entry_id
                && active.task == done.1.task && active.subtask == done.1.subtask
                && active.started_at == done.1.started_at && active.note == optional_name(note)
        }),
{
    let done = m.start_timer(task, subtask_name, note, now)->Ok_0;
    one_timer_runs(m, task, subtask_name, note, now);
    lemma_only_one_runs(done.0.entries);
    lemma_end_entries_fits(m, None, now);
    let stopped = m.end_entries(None, now);
    lemma_described_task_is_there(stopped, task, now);
    let with_task = stopped.upsert_task(task, now)->Ok_0;
    assert(done.0.tasks == with_task.0.tasks);
    assert(done.0.task_at(done.1.task.id) == with_task.0.task_at(done.1.task.id));
    if let Some(name) = optional_name(subtask_name) {
        lemma_named_subtask_is_there(with_task.0, name, now);
        let with_subtask = with_task.0.upsert_subtask(name, now)->Ok_0;
        assert(done.0.subtasks == with_subtask.0.subtasks);
        assert(done.0.subtask_at(with_subtask.1.id) == with_subtask.0.subtask_at(
            with_subtask.1.id,
        ));
    }
}

// ---------------------------------------------------------------------------
// Stopping
// ---------------------------------------------------------------------------

/// A timer that is started and then stopped records the seconds from the one to
/// the other, and none where the clock was set back in between. After that no
/// timer runs.
pub proof fn a_stopped_timer_records_its_time(
    m: StoreModel,
    task: TaskInputModel,
    subtask_name: Option<Seq<char>>,
    note: Option<Seq<char>>,
    start: Timestamp,
    end: Timestamp,
)
    requires
        m.wf(),
        can_be_written(start),
        can_be_written(end),
        m.start_timer(task, subtask_name, note, utc_text(start)) is Ok,
    ensures
        ({
            let started = m.start_timer(task, subtask_name, note, utc_text(start))->Ok_0;
            let stopped = started.0.stop_timer(end);
            &&& stopped.1 matches Some(view) && view.id == started.1.entry_id && view.task_id
                == started.1.task.id && view.subtask_id == subtask_id_of(started.1.subtask)
                && view.note == optional_name(note) && view.started_at == utc_text(start)
                && view.ended_at == Some(utc_text(end)) && view.duration_seconds == at_least_zero(
                end.secs - start.secs,
            )
            &&& forall|k: int|
                0 <= k < stopped.0.entries.len() ==> (
                #[trigger] stopped.0.entries[k]).ended_at is Some
        }),
{
    let started = m.start_timer(task, subtask_name, note, utc_text(start))->Ok_0;
    one_timer_runs(m, task, subtask_name, note, utc_text(start));
    lemma_only_one_runs(started.0.entries);
    lemma_started_fits(m, task, subtask_name, note, utc_text(start));
    let n = m.entries.len() as int;
    let id = started.1.entry_id;
    let after = started.0.end_entry(id, utc_text(end));
    lemma_recorded_has_place(started.0, started.0.entries[n]);
    lemma_end_entry_fits(started.0, id, utc_text(end));
    let i = started.0.entry_at(id)->Some_0;
    if i < n {
        assert(started.0.entries[i].id < started.0.entries[n].id);
    }
    assert(after.entries[n].ended_at == Some(utc_text(end)));
    instants_are_written_by_the_second(start);
    instants_are_written_by_the_second(end);
    recorded_time_is_the_time_between(whole_second(start), whole_second(end), end);
}

/// A started timer keeps what the tables keep to.
proof fn lemma_started_fits(
    m: StoreModel,
    task: TaskInputModel,
    subtask_name: Option<Seq<char>>,
    note: Option<Seq<char>>,
    now: Seq<char>,
)
    requires
        m.wf(),
        m.start_timer(task, subtask_name, note, now) is Ok,
    ensures
        m.start_timer(task, subtask_name, note, now)->Ok_0.0.wf(),
{
    lemma_end_entries_fits(m, None, now);
    let stopped = m.end_entries(None, now);
    lemma_upsert_task_fits(stopped, task, now);
    let with_task = stopped.upsert_task(task, now)->Ok_0;
    let with_subtask = with_task.0.upsert_named_subtask(subtask_name, now)->Ok_0;
    if let Some(name) = optional_name(subtask_name) {
        lemma_upsert_subtask_fits(with_task.0, name, now);
    }
    let id = with_task.1.id;
    let i = choose|i: int|
        0 <= i < with_task.0.tasks.len() && (#[trigger] with_task.0.tasks[i]).id == id;
    assert(with_subtask.0.tasks[i].id == id);
    lemma_add_entry_fits(
        with_subtask.0,
        id,
        subtask_id_of(with_subtask.1),
        optional_name(note),
        now,
    );
}

/// Stopping ends the running entry that started last, and changes no other entry.
pub proof fn stopping_ends_the_newest(m: StoreModel, now: Timestamp, k: int)
    requires
        m.wf(),
        m.stop_timer(now).1 is Some,
        0 <= k < m.entries.len(),
    ensures
        ({
            let stopped = m.stop_timer(now);
            let view = stopped.1->Some_0;
            if m.entries[k].id == view.id {
                stopped.0.entries[k] == (TimeEntryModel {
                    ended_at: Some(utc_text(now)),
                    ..m.entries[k]
                }) && m.entries[k].ended_at is None
            } else {
                stopped.0.entries[k] == m.entries[k]
            }
        }),
        m.entries[k].ended_at is None ==> exists|j: int|
            0 <= j < m.entries.len() && (#[trigger] m.entries[j]).id
                == m.stop_timer(now).1->Some_0.id && !newest_first()(m.entries[k], m.entries[j]),
{
    let running = newest(m.entries.filter(runs()));
    let first = running[0];
    lemma_picked_are_recorded(m.entries, runs());
    assert(m.entries.contains(first));
    lemma_recorded_has_place(m, first);
    lemma_end_entry_fits(m, first.id, utc_text(now));
    let i = m.entry_at(first.id)->Some_0;
    if k < i {
        assert(m.entries[k].id < m.entries[i].id);
    }
    if i < k {
        assert(m.entries[i].id < m.entries[k].id);
    }
    assert(m.stop_timer(now).1->Some_0.id == first.id);
    if m.entries[k].ended_at is None {
        newest_first_can_sort();
        passing_items_are_kept(m.entries, runs(), m.entries[k]);
        let kept = m.entries.filter(runs());
        sorted_items_were_there(kept, newest_first());
        sorting_orders_the_same_items(kept, newest_first());
        assert(running.contains(m.entries[k]));
        let p = choose|p: int| 0 <= p < running.len() && running[p] == m.entries[k];
        if p == 0 {
            assert(newest_first()(first, first) ==> !newest_first()(first, first));
        } else {
            assert(!newest_first()(running[p], running[0]));
        }
        assert(m.entries[i].id == m.stop_timer(now).1->Some_0.id);
    }
}

// ---------------------------------------------------------------------------
// Tasks
// ---------------------------------------------------------------------------

/// Naming a task a second time finds the first: there is no second row, and it
/// keeps its identifier and the time it was created.
pub proof fn tasks_with_one_name_are_one(
    m: StoreModel,
    first: TaskInputModel,
    second: TaskInputModel,
    now: Seq<char>,
    later: Seq<char>,
)
    requires
        m.upsert_task(first, now) is Ok,
        trimmed(first.name) == trimmed(second.name),
    ensures
        ({
            let done = m.upsert_task(first, now)->Ok_0;
            done.0.upsert_task(second, later) matches Ok(again) && again.1.id == done.1.id
                && again.1.created_at == done.1.created_at && again.0.tasks.len()
                == done.0.tasks.len()
        }),
{
    let done = m.upsert_task(first, now)->Ok_0;
    let test = task_has_name(trimmed(first.name));
    position_is_the_first(m.tasks, test);
    let i = match position(m.tasks, test) {
        Some(i) => i,
        None => m.tasks.len() as int,
    };
    assert forall|j: int| 0 <= j < i implies !test(#[trigger] done.0.tasks[j]) by {
        assert(!test(m.tasks[j]));
    }
    lemma_position_found(done.0.tasks, test, i);
}

/// The listed tasks are the open ones.
pub proof fn listed_tasks_are_the_open_ones(m: StoreModel, task: TaskModel)
    ensures
        m.list_tasks().contains(m.with_subtasks()(task)) <==> m.tasks.contains(task)
            && task.closed_at is None,
{
    let open = m.tasks.filter(is_open());
    let sorted = stable_sorted(open, latest_first());
    let listed = m.list_tasks();
    let shown = m.with_subtasks()(task);
    latest_first_can_sort();
    sorted_items_were_there(open, latest_first());
    filtered_items_were_there(m.tasks, is_open());
    if listed.contains(shown) {
        let k = choose|k: int| 0 <= k < listed.len() && listed[k] == shown;
        assert(sorted[k] == task);
        assert(sorted.contains(task));
        assert(open.contains(task));
        let i = choose|i: int| 0 <= i < open.len() && open[i] == task;
        assert(m.tasks.contains(open[i]));
    }
    if m.tasks.contains(task) && task.closed_at is None {
        passing_items_are_kept(m.tasks, is_open(), task);
        assert(sorted.contains(task));
        let k = choose|k: int| 0 <= k < sorted.len() && sorted[k] == task;
        assert(listed[k] == shown);
    }
}

/// The listed tasks are those that were updated last first; of those updated
/// together, the one whose name comes first.
pub proof fn listed_tasks_are_in_order(m: StoreModel)
    ensures
        forall|i: int, j: int|
            0 <= i < j < m.list_tasks().len() ==> !latest_first()(
                (#[trigger] m.list_tasks()[j]).task,
                (#[trigger] m.list_tasks()[i]).task,
            ),
{
    latest_first_can_sort();
    sorting_orders_the_same_items(m.tasks.filter(is_open()), latest_first());
}

/// A closed task is no longer listed and none of its entries runs. Other tasks
/// and their entries stay as they are.
pub proof fn closing_a_task_stops_it(m: StoreModel, id: i64, now: Seq<char>)
    ensures
        ({
            let after = m.close_task(id, now);
            &&& forall|k: int|
                0 <= k < after.list_tasks().len() ==> (#[trigger] after.list_tasks()[k]).task.id
                    != id
            &&& after.entries.len() == m.entries.len()
            &&& after.tasks.len() == m.tasks.len()
            &&& forall|k: int|
                0 <= k < m.entries.len() ==> (#[trigger] after.entries[k]).task_id
                    == m.entries[k].task_id && (m.entries[k].task_id == id
                    ==> after.entries[k].ended_at is Some) && (m.entries[k].task_id != id
                    ==> after.entries[k] == m.entries[k])
            &&& forall|k: int|
                0 <= k < m.tasks.len() ==> (#[trigger] after.tasks[k]).id == m.tasks[k].id && (
                m.tasks[k].id == id ==> after.tasks[k].closed_at == Some(now)) && (m.tasks[k].id
                    != id ==> after.tasks[k] == m.tasks[k])
        }),
{
    let after = m.close_task(id, now);
    let open = after.tasks.filter(is_open());
    let sorted = stable_sorted(open, latest_first());
    latest_first_can_sort();
    sorted_items_were_there(open, latest_first());
    filtered_items_were_there(after.tasks, is_open());
    assert forall|k: int| 0 <= k < after.list_tasks().len() implies (
    #[trigger] after.list_tasks()[k]).task.id != id by {
        let task = sorted[k];
        assert(sorted.contains(task));
        assert(open.contains(task));
        let i = choose|i: int| 0 <= i < open.len() && open[i] == task;
        assert(after.tasks.contains(open[i]));
        assert(is_open()(open[i]));
        let j = choose|j: int| 0 <= j < after.tasks.len() && after.tasks[j] == task;
        assert(after.tasks[j] == closing(id, now)(m.tasks[j]));
    }
}

/// Naming a task opens it again: it is listed with what the request says.
pub proof fn naming_a_task_opens_it(m: StoreModel, input: TaskInputModel, now: Seq<char>)
    requires
        m.wf(),
        m.upsert_task(input, now) is Ok,
    ensures
        ({
            let done = m.upsert_task(input, now)->Ok_0;
            done.0.list_tasks().contains(done.0.with_subtasks()(done.1))
        }),
{
    let done = m.upsert_task(input, now)->Ok_0;
    lemma_described_task_is_there(m, input, now);
    listed_tasks_are_the_open_ones(done.0, done.1);
}

/// Starting a task that is there starts that task, and no new one.
pub proof fn starting_again_keeps_the_task(m: StoreModel, i: int, now: Seq<char>)
    requires
        m.wf(),
        0 <= i < m.tasks.len(),
        m.tasks[i].name == trimmed(m.tasks[i].name),
    ensures
        m.start_existing_task(m.tasks[i].id, now) matches Ok(done) ==> done.1.task.id
            == m.tasks[i].id && done.1.task.name == m.tasks[i].name && done.0.tasks.len()
            == m.tasks.len(),
{
    lemma_task_place(m, i);
    let name = m.tasks[i].name;
    let test = task_has_name(name);
    assert forall|j: int| 0 <= j < i implies !test(#[trigger] m.tasks[j]) by {
        assert(m.tasks[j].name != m.tasks[i].name);
    }
    lemma_position_found(m.tasks, test, i);
    assert(m.end_entries(None, now).tasks == m.tasks);
}

/// A task that is not there cannot be started.
pub proof fn a_missing_task_is_not_started(m: StoreModel, id: i64, now: Seq<char>)
    requires
        !m.has_task(id),
    ensures
        m.start_existing_task(id, now) == Err::<(StoreModel, ActiveTimerModel), TrackerError>(
            TrackerError::Database(DatabaseFault::NoRows),
        ),
{
    positions_find_rows(m, id);
}

// ---------------------------------------------------------------------------
// One timer
// ---------------------------------------------------------------------------

/// Whether no two entries run.
pub open spec fn one_runs_at_most(entries: Seq<TimeEntryModel>) -> bool {
    forall|i: int, j: int|
        0 <= i < j < entries.len() && (#[trigger] entries[i]).ended_at is None ==> (
        #[trigger] entries[j]).ended_at is Some
}

/// Entries that run only where they ran before are no more than before.
proof fn lemma_no_more_run(before: Seq<TimeEntryModel>, after: Seq<TimeEntryModel>)
    requires
        one_runs_at_most(before),
        after.len() == before.len(),
        forall|k: int|
            0 <= k < after.len() && (#[trigger] after[k]).ended_at is None
                ==> before[k].ended_at is None,
    ensures
        one_runs_at_most(after),
{
    assert forall|i: int, j: int|
        0 <= i < j < after.len() && (#[trigger] after[i]).ended_at is None implies (
    #[trigger] after[j]).ended_at is Some by {
        assert(before[i].ended_at is None);
        assert(before[j].ended_at is Some);
    }
}

/// No request makes a second timer run.
pub proof fn no_second_timer_runs(
    m: StoreModel,
    task: TaskInputModel,
    name: Option<Seq<char>>,
    note: Option<Seq<char>>,
    id: i64,
    subtask_id: Option<i64>,
    now: Timestamp,
)
    requires
        one_runs_at_most(m.entries),
    ensures
        m.start_timer(task, name, note, utc_text(now)) matches Ok(done) ==> one_runs_at_most(
            done.0.entries,
        ),
        one_runs_at_most(m.stop_timer(now).0.entries),
        one_runs_at_most(m.close_task(id, utc_text(now)).entries),
        name matches Some(name) ==> (m.renamed_subtask(id, name) matches Ok(done)
            ==> one_runs_at_most(done.entries)),
        one_runs_at_most(m.set_entry_subtask(id, subtask_id).entries),
{
    if m.start_timer(task, name, note, utc_text(now)) is Ok {
        one_timer_runs(m, task, name, note, utc_text(now));
    }
    let running = newest(m.entries.filter(runs()));
    if running.len() > 0 {
        position_is_the_first(m.entries, entry_has_id(running[0].id));
    }
    lemma_no_more_run(m.entries, m.stop_timer(now).0.entries);
    lemma_no_more_run(m.entries, m.close_task(id, utc_text(now)).entries);
    if let Some(name) = name {
        if let Ok(done) = m.renamed_subtask(id, name) {
            lemma_no_more_run(m.entries, done.entries);
        }
    }
    position_is_the_first(m.entries, entry_has_id(id));
    lemma_no_more_run(m.entries, m.set_entry_subtask(id, subtask_id).entries);
}

} // verus!
