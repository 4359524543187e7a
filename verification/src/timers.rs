//! Starting and stopping timers, and closing tasks.

use vstd::prelude::*;
use crate::clock::{elapsed_seconds_at, entry_seconds, format_utc, utc_now, utc_text, Timestamp};
use crate::entries::{
    entry_view_by_id_at, newest, newest_are_recorded, seconds_or_zero, sort_newest,
};
use crate::error::{DatabaseFault, TrackerError};
use crate::lists::{
    filtered_items_were_there, lemma_position_found, models, models_of_push, models_of_update,
    position_is_the_first, select_by,
};
use crate::names::{normalize_optional, optional_name};
use crate::records::{
    opt_subtask, ActiveTimer, ActiveTimerModel, StartTimerInput, Subtask, SubtaskModel, TaskInput,
    TaskInputModel, TaskModel, TimeEntry, TimeEntryModel, TimeEntryView, TimeEntryViewModel,
};
use crate::store::{
    carried_out, end_entries, entry_has_id, find_entry, find_subtask, find_task, lemma_entries_fit,
    lemma_same_rows_resolve, lemma_upsert_subtask_fits, lemma_upsert_task_fits, positions_find_rows,
    positions_find_subtasks, stop_active_entries, task_by_id, upsert_subtask, upsert_task, Store,
    StoreModel,
};
use crate::text::opt_text;

verus! {

// ---------------------------------------------------------------------------
// Entries of one kind
// ---------------------------------------------------------------------------

/// Whether an entry runs.
pub open spec fn runs() -> spec_fn(TimeEntryModel) -> bool {
    |entry: TimeEntryModel| entry.ended_at is None
}

/// Whether an entry belongs to a task.
pub open spec fn of_task(task_id: i64) -> spec_fn(TimeEntryModel) -> bool {
    |entry: TimeEntryModel| entry.task_id == task_id
}

/// The running entries, the newest first.
fn running_entries(store: &Store) -> (result: Vec<&TimeEntry>)
    ensures
        models(result@) == newest(store@.entries.filter(runs())),
{
    let passes = |entry: &TimeEntry| -> (answer: bool)
        ensures
            answer == (entry@.ended_at is None),
    {
        entry.ended_at.is_none()
    };
    sort_newest(select_by(&store.entries, passes, Ghost(runs())))
}

/// The entries of a task, the newest first.
pub(crate) fn entries_of_task(store: &Store, task_id: i64) -> (result: Vec<&TimeEntry>)
    ensures
        models(result@) == newest(store@.entries.filter(of_task(task_id))),
{
    let passes = |entry: &TimeEntry| -> (answer: bool)
        ensures
            answer == (entry@.task_id == task_id),
    {
        entry.task_id == task_id
    };
    sort_newest(select_by(&store.entries, passes, Ghost(of_task(task_id))))
}

/// What a filter keeps and a sort orders is recorded, and passes the filter.
pub proof fn lemma_picked_are_recorded(
    entries: Seq<TimeEntryModel>,
    test: spec_fn(TimeEntryModel) -> bool,
)
    ensures
        forall|k: int|
            0 <= k < newest(entries.filter(test)).len() ==> entries.contains(
                #[trigger] newest(entries.filter(test))[k],
            ) && test(newest(entries.filter(test))[k]),
{
    let kept = entries.filter(test);
    let sorted = newest(kept);
    newest_are_recorded(kept);
    filtered_items_were_there(entries, test);
    assert forall|k: int| 0 <= k < sorted.len() implies entries.contains(#[trigger] sorted[k])
        && test(sorted[k]) by {
        assert(kept.contains(sorted[k]));
        let i = choose|i: int| 0 <= i < kept.len() && kept[i] == sorted[k];
        assert(entries.contains(kept[i]));
    }
}

// ---------------------------------------------------------------------------
// Starting
// ---------------------------------------------------------------------------

impl StoreModel {
    /// Finds or creates the subtask that a request names, if it names one.
    pub open spec fn upsert_named_subtask(self, name: Option<Seq<char>>, now: Seq<char>) -> Result<
        (StoreModel, Option<SubtaskModel>),
        TrackerError,
    > {
        match optional_name(name) {
            None => Ok((self, None)),
            Some(name) => match self.upsert_subtask(name, now) {
                Ok(done) => Ok((done.0, Some(done.1))),
                Err(error) => Err(error),
            },
        }
    }

    /// Adds an entry that starts now.
    pub open spec fn add_entry(
        self,
        task_id: i64,
        subtask_id: Option<i64>,
        note: Option<Seq<char>>,
        now: Seq<char>,
    ) -> Result<(StoreModel, i64), TrackerError> {
        if self.last_entry_id == i64::MAX {
            Err(TrackerError::Database(DatabaseFault::Full))
        } else {
            let id = (self.last_entry_id + 1) as i64;
            let entry = TimeEntryModel {
                id,
                task_id,
                subtask_id,
                started_at: now,
                ended_at: None,
                note,
            };
            Ok((StoreModel { entries: self.entries.push(entry), last_entry_id: id, ..self }, id))
        }
    }

    /// Ends what runs, and starts an entry for the task and the subtask that a
    /// request names.
    pub open spec fn start_timer(
        self,
        task: TaskInputModel,
        subtask_name: Option<Seq<char>>,
        note: Option<Seq<char>>,
        now: Seq<char>,
    ) -> Result<(StoreModel, ActiveTimerModel), TrackerError> {
        match self.end_entries(None, now).upsert_task(task, now) {
            Err(error) => Err(error),
            Ok(with_task) => match with_task.0.upsert_named_subtask(subtask_name, now) {
                Err(error) => Err(error),
                Ok(with_subtask) => match with_subtask.0.add_entry(
                    with_task.1.id,
                    subtask_id_of(with_subtask.1),
                    optional_name(note),
                    now,
                ) {
                    Err(error) => Err(error),
                    Ok(with_entry) => Ok(
                        (
                            with_entry.0,
                            ActiveTimerModel {
                                entry_id: with_entry.1,
                                task: with_task.1,
                                subtask: with_subtask.1,
                                started_at: now,
                                elapsed_seconds: 0,
                                note: None,
                            },
                        ),
                    ),
                },
            },
        }
    }
}

/// The identifier of a subtask, if there is one.
pub open spec fn subtask_id_of(subtask: Option<SubtaskModel>) -> Option<i64> {
    match subtask {
        Some(subtask) => Some(subtask.id),
        None => None,
    }
}

/// Finds or creates the subtask that a request names, if it names one.
pub(crate) fn upsert_named_subtask(
    store: &mut Store,
    name: Option<String>,
    now: &str,
) -> (result: Result<Option<Subtask>, TrackerError>)
    requires
        old(store)@.wf(),
    ensures
        match (result, old(store)@.upsert_named_subtask(opt_text(name), now@)) {
            (Ok(subtask), Ok(done)) => final(store)@ == done.0 && opt_subtask(subtask) == done.1,
            (Err(error), Err(refusal)) => error == refusal && final(store)@ == old(store)@,
            _ => false,
        },
        final(store)@.wf(),
        forall|id: i64| old(store)@.has_task(id) ==> #[trigger] final(store)@.has_task(id),
        result matches Ok(Some(subtask)) ==> final(store)@.has_subtask(subtask.id),
        final(store)@.entries == old(store)@.entries,
{
    let ghost before = store@;
    match normalize_optional(name) {
        None => Ok(None),
        Some(name) => match upsert_subtask(store, name.as_str(), now) {
            Ok(subtask) => {
                proof {
                    lemma_upsert_subtask_fits(before, name@, now@);
                    assert forall|id: i64| before.has_task(id) implies #[trigger] store@.has_task(
                        id,
                    ) by {
                        let i = choose|i: int|
                            0 <= i < before.tasks.len() && (#[trigger] before.tasks[i]).id == id;
                        assert(store@.tasks[i].id == id);
                    }
                }
                Ok(Some(subtask))
            },
            Err(error) => Err(error),
        },
    }
}

/// An added entry keeps what the tables keep to.
pub proof fn lemma_add_entry_fits(
    m: StoreModel,
    task_id: i64,
    subtask_id: Option<i64>,
    note: Option<Seq<char>>,
    now: Seq<char>,
)
    requires
        m.wf(),
        m.last_entry_id < i64::MAX,
        m.has_task(task_id),
        subtask_id matches Some(id) ==> m.has_subtask(id),
    ensures
        m.add_entry(task_id, subtask_id, note, now) is Ok,
        m.add_entry(task_id, subtask_id, note, now)->Ok_0.0.wf(),
{
    let after = m.add_entry(task_id, subtask_id, note, now)->Ok_0.0;
    let added = after.entries.last();
    assert forall|k: int| 0 <= k < after.entries.len() implies after.resolves(
        #[trigger] after.entries[k],
    ) by {
        if k < m.entries.len() {
            assert(m.resolves(m.entries[k]));
        } else {
            assert(m.resolves(added));
        }
        lemma_same_rows_resolve(m, after, after.entries[k]);
    }
}

/// Adds an entry that starts now.
fn add_entry(
    store: &mut Store,
    task_id: i64,
    subtask_id: Option<i64>,
    note: Option<String>,
    now: &str,
) -> (result: Result<i64, TrackerError>)
    requires
        old(store)@.wf(),
        old(store)@.has_task(task_id),
        subtask_id matches Some(id) ==> old(store)@.has_subtask(id),
    ensures
        match (result, old(store)@.add_entry(task_id, subtask_id, opt_text(note), now@)) {
            (Ok(id), Ok(done)) => final(store)@ == done.0 && id == done.1,
            (Err(error), Err(refusal)) => error == refusal && final(store)@ == old(store)@,
            _ => false,
        },
        final(store)@.wf(),
{
    broadcast use models_of_push;

    if store.last_entry_id == i64::MAX {
        return Err(TrackerError::Database(DatabaseFault::Full));
    }
    proof {
        lemma_add_entry_fits(store@, task_id, subtask_id, opt_text(note), now@);
    }
    let id: i64 = store.last_entry_id + 1;
    store.entries.push(
        TimeEntry {
            id,
            task_id,
            subtask_id,
            started_at: now.to_owned(),
            ended_at: None,
            note,
        },
    );
    store.last_entry_id = id;
    Ok(id)
}

/// Starts a timer at a given instant: whatever runs is ended, and an entry starts
/// for the task and the subtask that the request names, which are created where
/// they are not there yet.
pub fn start_timer_inner_at(
    store: &mut Store,
    input: StartTimerInput,
    now: Timestamp,
) -> (result: Result<ActiveTimer, TrackerError>)
    requires
        old(store)@.wf(),
        now.valid(),
    ensures
        carried_out(
            result,
            old(store)@,
            final(store)@,
            old(store)@.start_timer(
                input.task@,
                opt_text(input.subtask_name),
                opt_text(input.note),
                utc_text(now),
            ),
        ),
        final(store)@.wf(),
{
    let now = format_utc(now);
    let mut work = store.duplicate();
    stop_active_entries(&mut work, now.as_str());
    let ghost stopped = work@;
    let task = match upsert_task(&mut work, &input.task, now.as_str()) {
        Ok(task) => task,
        Err(error) => return Err(error),
    };
    proof {
        lemma_upsert_task_fits(stopped, input.task@, now@);
    }
    let subtask = match upsert_named_subtask(&mut work, input.subtask_name, now.as_str()) {
        Ok(subtask) => subtask,
        Err(error) => return Err(error),
    };
    let subtask_id = match &subtask {
        Some(subtask) => Some(subtask.id),
        None => None,
    };
    let note = normalize_optional(input.note);
    let entry_id = match add_entry(&mut work, task.id, subtask_id, note, now.as_str()) {
        Ok(id) => id,
        Err(error) => return Err(error),
    };
    *store = work;
    Ok(ActiveTimer { entry_id, task, subtask, started_at: now, elapsed_seconds: 0, note: None })
}

/// Starts a timer now.
pub fn start_timer_inner(
    store: &mut Store,
    input: StartTimerInput,
) -> (result: Result<ActiveTimer, TrackerError>)
    requires
        old(store)@.wf(),
    ensures
        exists|now: Timestamp| #[trigger]
            now.from_clock() && carried_out(
                result,
                old(store)@,
                final(store)@,
                old(store)@.start_timer(
                    input.task@,
                    opt_text(input.subtask_name),
                    opt_text(input.note),
                    utc_text(now),
                ),
            ),
        final(store)@.wf(),
{
    let now = utc_now();
    start_timer_inner_at(store, input, now)
}

// ---------------------------------------------------------------------------
// Starting again
// ---------------------------------------------------------------------------

impl StoreModel {
    /// The name of the subtask that a task's newest entry has, if it has one.
    pub open spec fn latest_subtask_name(self, task_id: i64) -> Option<Seq<char>> {
        let used = newest(self.entries.filter(of_task(task_id)));
        if used.len() == 0 {
            None
        } else {
            match used[0].subtask_id {
                Some(id) => Some(self.subtasks[self.subtask_at(id)->Some_0].name),
                None => None,
            }
        }
    }

    /// Starts a timer for a task that is there, with the subtask it had last.
    pub open spec fn start_existing_task(self, task_id: i64, now: Seq<char>) -> Result<
        (StoreModel, ActiveTimerModel),
        TrackerError,
    > {
        match self.task(task_id) {
            Err(error) => Err(error),
            Ok(task) => self.start_timer(
                TaskInputModel {
                    name: task.name,
                    github_kind: task.github_kind,
                    github_reference: task.github_reference,
                    github_state: task.github_state,
                },
                self.latest_subtask_name(task_id),
                None,
                now,
            ),
        }
    }
}

/// The name of the subtask that a task's newest entry has, if it has one.
pub fn latest_subtask_name_for_task(store: &Store, task_id: i64) -> (result: Option<String>)
    requires
        store@.wf(),
    ensures
        opt_text(result) == store@.latest_subtask_name(task_id),
{
    let used = entries_of_task(store, task_id);
    if used.len() == 0 {
        return None;
    }
    let ghost picked = newest(store@.entries.filter(of_task(task_id)));
    proof {
        lemma_picked_are_recorded(store@.entries, of_task(task_id));
        assert(models(used@)[0] == picked[0]);
        assert(store@.entries.contains(picked[0]));
        assert(store@.resolves(picked[0]));
    }
    match used[0].subtask_id {
        Some(id) => {
            proof {
                positions_find_subtasks(store@, id);
            }
            Some(store.subtasks[find_subtask(store, id).unwrap()].name.clone())
        },
        None => None,
    }
}

/// Starts a timer at a given instant for a task that is there, with the subtask
/// it had last.
pub fn start_existing_task_inner_at(
    store: &mut Store,
    task_id: i64,
    now: Timestamp,
) -> (result: Result<ActiveTimer, TrackerError>)
    requires
        old(store)@.wf(),
        now.valid(),
    ensures
        carried_out(
            result,
            old(store)@,
            final(store)@,
            old(store)@.start_existing_task(task_id, utc_text(now)),
        ),
        final(store)@.wf(),
{
    let task = match task_by_id(store, task_id) {
        Ok(task) => task,
        Err(error) => return Err(error),
    };
    let subtask_name = latest_subtask_name_for_task(store, task_id);
    let input = StartTimerInput {
        task: TaskInput {
            name: task.name,
            github_kind: task.github_kind,
            github_reference: task.github_reference,
            github_state: task.github_state,
        },
        subtask_name,
        note: None,
    };
    start_timer_inner_at(store, input, now)
}

/// Starts a timer now for a task that is there, with the subtask it had last.
pub fn start_existing_task_inner(
    store: &mut Store,
    task_id: i64,
) -> (result: Result<ActiveTimer, TrackerError>)
    requires
        old(store)@.wf(),
    ensures
        exists|now: Timestamp| #[trigger]
            now.from_clock() && carried_out(
                result,
                old(store)@,
                final(store)@,
                old(store)@.start_existing_task(task_id, utc_text(now)),
            ),
        final(store)@.wf(),
{
    let now = utc_now();
    start_existing_task_inner_at(store, task_id, now)
}

// ---------------------------------------------------------------------------
// Stopping
// ---------------------------------------------------------------------------

impl StoreModel {
    /// Ends the entry with an identifier.
    pub open spec fn end_entry(self, id: i64, now: Seq<char>) -> StoreModel {
        match self.entry_at(id) {
            Some(i) => StoreModel {
                entries: self.entries.update(
                    i,
                    TimeEntryModel { ended_at: Some(now), ..self.entries[i] },
                ),
                ..self
            },
            None => self,
        }
    }

    /// Ends the newest running entry, and shows it.
    pub open spec fn stop_timer(self, now: Timestamp) -> (StoreModel, Option<TimeEntryViewModel>) {
        let running = newest(self.entries.filter(runs()));
        if running.len() == 0 {
            (self, None)
        } else {
            let after = self.end_entry(running[0].id, utc_text(now));
            (after, Some(after.entry_view_by_id(running[0].id, now)->Ok_0))
        }
    }

    /// The newest running entry as a timer.
    pub open spec fn active_timer(self, now: Timestamp) -> Option<ActiveTimerModel> {
        let running = newest(self.entries.filter(runs()));
        if running.len() == 0 {
            None
        } else {
            let entry = running[0];
            Some(
                ActiveTimerModel {
                    entry_id: entry.id,
                    task: self.task(entry.task_id)->Ok_0,
                    subtask: match entry.subtask_id {
                        Some(id) => Some(self.subtask(id)->Ok_0),
                        None => None,
                    },
                    started_at: entry.started_at,
                    elapsed_seconds: seconds_or_zero(entry_seconds(entry.started_at, None, now)),
                    note: entry.note,
                },
            )
        }
    }
}

/// Ending one entry keeps what the tables keep to, and every entry in its place.
pub proof fn lemma_end_entry_fits(m: StoreModel, id: i64, now: Seq<char>)
    requires
        m.wf(),
    ensures
        m.end_entry(id, now).wf(),
        m.end_entry(id, now).entry_at(id) == m.entry_at(id),
{
    let after = m.end_entry(id, now);
    let test = entry_has_id(id);
    position_is_the_first(m.entries, test);
    if let Some(i) = m.entry_at(id) {
        assert forall|k: int| 0 <= k < after.entries.len() implies (#[trigger] after.entries[k]).id
            == m.entries[k].id && m.resolves(after.entries[k]) by {
            assert(m.resolves(m.entries[k]));
        }
        lemma_entries_fit(m, after.entries);
        assert(after == (StoreModel { entries: after.entries, ..m }));
        assert forall|j: int| 0 <= j < i implies !test(#[trigger] after.entries[j]) by {
            assert(!test(m.entries[j]));
        }
        lemma_position_found(after.entries, test, i);
    }
}

/// An entry that is there has its place.
pub proof fn lemma_recorded_has_place(m: StoreModel, entry: TimeEntryModel)
    requires
        m.wf(),
        m.entries.contains(entry),
    ensures
        m.entry_at(entry.id) matches Some(i) && 0 <= i < m.entries.len() && m.entries[i] == entry,
        m.resolves(entry),
{
    position_is_the_first(m.entries, entry_has_id(entry.id));
    let k = choose|k: int| 0 <= k < m.entries.len() && m.entries[k] == entry;
    assert(entry_has_id(entry.id)(m.entries[k]));
    assert(m.resolves(m.entries[k]));
    let i = m.entry_at(entry.id)->Some_0;
    if i < k {
        assert(m.entries[i].id < m.entries[k].id);
    }
    if k < i {
        assert(m.entries[k].id < m.entries[i].id);
    }
}

/// Stops the timer at a given instant: the newest running entry ends.
pub fn stop_timer_inner_at(store: &mut Store, now: Timestamp) -> (result: Option<TimeEntryView>)
    requires
        old(store)@.wf(),
        now.valid(),
    ensures
        final(store)@ == old(store)@.stop_timer(now).0,
        match (result, old(store)@.stop_timer(now).1) {
            (Some(view), Some(expected)) => view@ == expected,
            (None, None) => true,
            _ => false,
        },
        final(store)@.wf(),
{
    broadcast use models_of_update;

    let ghost before = store@;
    let running = running_entries(store);
    if running.len() == 0 {
        return None;
    }
    let id: i64 = running[0].id;
    let ghost picked = newest(store@.entries.filter(runs()));
    proof {
        lemma_picked_are_recorded(store@.entries, runs());
        assert(models(running@)[0] == picked[0]);
        assert(store@.entries.contains(picked[0]));
        lemma_recorded_has_place(store@, picked[0]);
        lemma_end_entry_fits(store@, id, utc_text(now));
    }
    let i: usize = find_entry(store, id).unwrap();
    store.entries[i].ended_at = Some(format_utc(now));
    assert(store@ == before.end_entry(id, utc_text(now)));
    match entry_view_by_id_at(store, id, now) {
        Ok(view) => Some(view),
        Err(_) => None,
    }
}

/// Stops the timer now.
pub fn stop_timer_inner(store: &mut Store) -> (result: Option<TimeEntryView>)
    requires
        old(store)@.wf(),
    ensures
        exists|now: Timestamp| #[trigger]
            now.from_clock() && final(store)@ == old(store)@.stop_timer(now).0 && match (
                result,
                old(store)@.stop_timer(now).1,
            ) {
                (Some(view), Some(expected)) => view@ == expected,
                (None, None) => true,
                _ => false,
            },
        final(store)@.wf(),
{
    let now = utc_now();
    stop_timer_inner_at(store, now)
}

/// The timer that runs at a given instant: the newest running entry.
pub fn active_timer_inner_at(store: &Store, now: Timestamp) -> (result: Option<ActiveTimer>)
    requires
        store@.wf(),
        now.valid(),
    ensures
        match (result, store@.active_timer(now)) {
            (Some(timer), Some(expected)) => timer@ == expected,
            (None, None) => true,
            _ => false,
        },
{
    let running = running_entries(store);
    if running.len() == 0 {
        return None;
    }
    let entry = running[0];
    let ghost picked = newest(store@.entries.filter(runs()));
    proof {
        lemma_picked_are_recorded(store@.entries, runs());
        assert(models(running@)[0] == picked[0]);
        assert(store@.entries.contains(picked[0]));
        lemma_recorded_has_place(store@, picked[0]);
        positions_find_rows(store@, entry.task_id);
    }
    let task = store.tasks[find_task(store, entry.task_id).unwrap()].clone();
    let subtask = match entry.subtask_id {
        Some(id) => {
            proof {
                positions_find_subtasks(store@, id);
            }
            Some(store.subtasks[find_subtask(store, id).unwrap()].shown())
        },
        None => None,
    };
    let elapsed_seconds = match elapsed_seconds_at(entry.started_at.as_str(), None, now) {
        Ok(seconds) => seconds,
        Err(_) => 0,
    };
    Some(
        ActiveTimer {
            entry_id: entry.id,
            task,
            subtask,
            started_at: entry.started_at.clone(),
            elapsed_seconds,
            note: entry.note.clone(),
        },
    )
}

/// The timer that runs now.
pub fn active_timer_inner(store: &Store) -> (result: Option<ActiveTimer>)
    requires
        store@.wf(),
    ensures
        exists|now: Timestamp| #[trigger]
            now.from_clock() && match (result, store@.active_timer(now)) {
                (Some(timer), Some(expected)) => timer@ == expected,
                (None, None) => true,
                _ => false,
            },
{
    let now = utc_now();
    active_timer_inner_at(store, now)
}

// ---------------------------------------------------------------------------
// Closing
// ---------------------------------------------------------------------------

/// A task that is closed now, where it has the identifier.
pub open spec fn closing(id: i64, now: Seq<char>) -> spec_fn(TaskModel) -> TaskModel {
    |task: TaskModel|
        if task.id == id {
            TaskModel { closed_at: Some(now), updated_at: now, ..task }
        } else {
            task
        }
}

/// A task with the state that GitHub told now, where it has the identifier.
pub open spec fn checking(id: i64, state: Seq<char>, now: Seq<char>) -> spec_fn(
    TaskModel,
) -> TaskModel {
    |task: TaskModel|
        if task.id == id {
            TaskModel { github_state: Some(state), github_checked_at: Some(now), ..task }
        } else {
            task
        }
}

impl StoreModel {
    /// Closes a task and ends its running entries.
    pub open spec fn close_task(self, id: i64, now: Seq<char>) -> StoreModel {
        (StoreModel { tasks: self.tasks.map_values(closing(id, now)), ..self }).end_entries(
            Some(id),
            now,
        )
    }

    /// Notes the state of a task on GitHub.
    pub open spec fn record_github_state(
        self,
        id: i64,
        state: Seq<char>,
        now: Seq<char>,
    ) -> StoreModel {
        StoreModel { tasks: self.tasks.map_values(checking(id, state, now)), ..self }
    }
}

/// Tasks that keep their identifiers and names keep what the tables keep to.
pub proof fn lemma_tasks_fit(m: StoreModel, tasks: Seq<TaskModel>)
    requires
        m.wf(),
        tasks.len() == m.tasks.len(),
        forall|k: int|
            0 <= k < tasks.len() ==> (#[trigger] tasks[k]).id == m.tasks[k].id && tasks[k].name
                == m.tasks[k].name,
    ensures
        (StoreModel { tasks, ..m }).wf(),
{
    let after = StoreModel { tasks, ..m };
    assert forall|i: int, j: int| 0 <= i < j < tasks.len() implies (#[trigger] tasks[i]).id < (
    #[trigger] tasks[j]).id && tasks[i].name != tasks[j].name by {
        assert(m.tasks[i].id < m.tasks[j].id);
        assert(m.tasks[i].name != m.tasks[j].name);
    }
    assert forall|i: int| 0 <= i < tasks.len() implies (#[trigger] tasks[i]).id
        <= after.last_task_id by {
        assert(m.tasks[i].id <= m.last_task_id);
    }
    assert forall|k: int| 0 <= k < after.entries.len() implies after.resolves(
        #[trigger] after.entries[k],
    ) by {
        let entry = m.entries[k];
        assert(m.resolves(entry));
        let i = choose|i: int|
            0 <= i < m.tasks.len() && (#[trigger] m.tasks[i]).id == entry.task_id;
        assert(after.tasks[i].id == entry.task_id);
        if let Some(id) = entry.subtask_id {
            let j = choose|j: int|
                0 <= j < m.subtasks.len() && (#[trigger] m.subtasks[j]).id == id;
            assert(after.subtasks[j].id == id);
        }
    }
}

/// Closes a task at a given instant and ends its running entries.
pub fn close_task_conn_at(store: &mut Store, task_id: i64, now: Timestamp)
    requires
        old(store)@.wf(),
        now.valid(),
    ensures
        final(store)@ == old(store)@.close_task(task_id, utc_text(now)),
        final(store)@.wf(),
{
    broadcast use models_of_update;

    let ghost before = store@;
    let now = format_utc(now);
    let ghost close = closing(task_id, now@);
    let count: usize = store.tasks.len();
    for i in 0..count
        invariant
            store.tasks@.len() == before.tasks.len() == count,
            store@ == (StoreModel { tasks: store@.tasks, ..before }),
            close == closing(task_id, now@),
            forall|k: int|
                0 <= k < before.tasks.len() ==> (#[trigger] store@.tasks[k]) == if k < i {
                    close(before.tasks[k])
                } else {
                    before.tasks[k]
                },
    {
        let ghost current = store@;
        assert(store@.tasks[i as int] == before.tasks[i as int]);
        if store.tasks[i].id == task_id {
            store.tasks[i].closed_at = Some(now.clone());
            store.tasks[i].updated_at = now.clone();
        }
        assert(store@.tasks == current.tasks.update(i as int, close(before.tasks[i as int])));
    }
    proof {
        assert(store@.tasks == before.tasks.map_values(close));
        lemma_tasks_fit(before, store@.tasks);
    }
    end_entries(store, Some(task_id), now.as_str());
}

/// Closes a task now and ends its running entries.
pub fn close_task_conn(store: &mut Store, task_id: i64)
    requires
        old(store)@.wf(),
    ensures
        exists|now: Timestamp| #[trigger]
            now.from_clock() && final(store)@ == old(store)@.close_task(task_id, utc_text(now)),
        final(store)@.wf(),
{
    let now = utc_now();
    close_task_conn_at(store, task_id, now)
}

/// Notes the state that GitHub told of a task at a given instant.
pub fn record_github_state_at(store: &mut Store, task_id: i64, state: &str, now: Timestamp)
    requires
        old(store)@.wf(),
        now.valid(),
    ensures
        final(store)@ == old(store)@.record_github_state(task_id, state@, utc_text(now)),
        final(store)@.wf(),
{
    broadcast use models_of_update;

    let ghost before = store@;
    let now = format_utc(now);
    let ghost check = checking(task_id, state@, now@);
    let count: usize = store.tasks.len();
    for i in 0..count
        invariant
            store.tasks@.len() == before.tasks.len() == count,
            store@ == (StoreModel { tasks: store@.tasks, ..before }),
            check == checking(task_id, state@, now@),
            forall|k: int|
                0 <= k < before.tasks.len() ==> (#[trigger] store@.tasks[k]) == if k < i {
                    check(before.tasks[k])
                } else {
                    before.tasks[k]
                },
    {
        let ghost current = store@;
        assert(store@.tasks[i as int] == before.tasks[i as int]);
        if store.tasks[i].id == task_id {
            store.tasks[i].github_state = Some(state.to_owned());
            store.tasks[i].github_checked_at = Some(now.clone());
        }
        assert(store@.tasks == current.tasks.update(i as int, check(before.tasks[i as int])));
    }
    proof {
        assert(store@.tasks == before.tasks.map_values(check));
        lemma_tasks_fit(before, store@.tasks);
    }
}

/// Notes the state that GitHub told of a task just now.
pub fn record_github_state(store: &mut Store, task_id: i64, state: &str)
    requires
        old(store)@.wf(),
    ensures
        exists|now: Timestamp| #[trigger]
            now.from_clock() && final(store)@ == old(store)@.record_github_state(
                task_id,
                state@,
                utc_text(now),
            ),
        final(store)@.wf(),
{
    let now = utc_now();
    record_github_state_at(store, task_id, state, now)
}

} // verus!
