//! The open tasks, and the subtasks recorded against each.

use vstd::prelude::*;
use crate::clock::{format_utc, utc_now, utc_text, Timestamp};
use crate::entries::{newest, sort_newest};
use crate::error::TrackerError;
use crate::lists::{can_sort, firsts, models, models_of_push, select_by, sort_by, stable_sorted};
use crate::records::{
    Subtask, SubtaskModel, Task, TaskInput, TaskInputModel, TaskModel, TaskWithSubtasks,
    TaskWithSubtasksModel, TimeEntry, TimeEntryModel,
};
use crate::store::{
    carried_out, find_subtask, positions_find_subtasks, upsert_task, Store, StoreModel,
};
use crate::text::{
    is_before, same_text, text_before, text_order_is_irreflexive, text_order_is_total,
    text_order_is_transitive,
};
use crate::timers::lemma_picked_are_recorded;

verus! {

// ---------------------------------------------------------------------------
// The subtasks of a task
// ---------------------------------------------------------------------------

/// Whether an entry belongs to a task and has a subtask.
pub open spec fn uses_subtask(task_id: i64) -> spec_fn(TimeEntryModel) -> bool {
    |entry: TimeEntryModel| entry.task_id == task_id && entry.subtask_id is Some
}

/// Entries with the same subtask.
pub open spec fn shares_subtask() -> spec_fn(TimeEntryModel, TimeEntryModel) -> bool {
    |a: TimeEntryModel, b: TimeEntryModel| a.subtask_id == b.subtask_id
}

impl StoreModel {
    /// The subtask of an entry that has one.
    pub open spec fn subtask_used(self) -> spec_fn(TimeEntryModel) -> SubtaskModel {
        |entry: TimeEntryModel|
            self.subtasks[self.subtask_at(entry.subtask_id->Some_0)->Some_0].shown()
    }

    /// The subtasks recorded against a task, the one in the newest entry first.
    pub open spec fn subtasks_for_task(self, task_id: i64) -> Seq<SubtaskModel> {
        let used = newest(self.entries.filter(uses_subtask(task_id)));
        firsts(used, shares_subtask()).map_values(self.subtask_used())
    }
}

/// Whether an entry shares its subtask with one of some others.
fn is_used_by(used: &Vec<&TimeEntry>, entry: &TimeEntry) -> (result: bool)
    ensures
        result == exists|k: int|
            0 <= k < used@.len() && shares_subtask()(#[trigger] models(used@)[k], entry@),
{
    let ghost others = models(used@);
    for i in 0..used.len()
        invariant
            others == models(used@),
            forall|k: int| 0 <= k < i ==> !shares_subtask()(#[trigger] others[k], entry@),
    {
        if used[i].subtask_id == entry.subtask_id {
            assert(shares_subtask()(others[i as int], entry@));
            return true;
        }
    }
    false
}

/// The subtasks already recorded against a task, most recently used first.
///
/// Subtasks are shared, so this reads the task's history of use rather than a set
/// of subtasks belonging to it.
pub fn subtasks_for_task(store: &Store, task_id: i64) -> (result: Vec<Subtask>)
    requires
        store@.wf(),
    ensures
        models(result@) == store@.subtasks_for_task(task_id),
{
    broadcast use models_of_push;

    let passes = |entry: &TimeEntry| -> (answer: bool)
        ensures
            answer == (entry@.task_id == task_id && entry@.subtask_id is Some),
    {
        entry.task_id == task_id && entry.subtask_id.is_some()
    };
    let used = sort_newest(select_by(&store.entries, passes, Ghost(uses_subtask(task_id))));
    let ghost all = newest(store@.entries.filter(uses_subtask(task_id)));
    let ghost grouped = shares_subtask();
    let ghost subtask_of = store@.subtask_used();
    proof {
        lemma_picked_are_recorded(store@.entries, uses_subtask(task_id));
    }
    let mut seen: Vec<&TimeEntry> = Vec::new();
    let mut subtasks: Vec<Subtask> = Vec::new();
    assert(models(seen@) == firsts(all.take(0), grouped));
    assert(models(subtasks@) == firsts(all.take(0), grouped).map_values(subtask_of));
    for i in 0..used.len()
        invariant
            store@.wf(),
            models(used@) == all,
            grouped == shares_subtask(),
            subtask_of == store@.subtask_used(),
            forall|k: int|
                0 <= k < all.len() ==> store@.entries.contains(#[trigger] all[k])
                    && all[k].subtask_id is Some,
            models(seen@) == firsts(all.take(i as int), grouped),
            models(subtasks@) == firsts(all.take(i as int), grouped).map_values(subtask_of),
    {
        let entry = used[i];
        let ghost before = firsts(all.take(i as int), grouped);
        let ghost seen_before = seen@;
        let ghost item = all[i as int];
        proof {
            assert(entry@ == item);
            assert(store@.entries.contains(item));
            assert(store@.resolves(item));
            assert(all.take(i + 1).drop_last() == all.take(i as int));
            assert(all.take(i + 1).last() == item);
        }
        if !is_used_by(&seen, entry) {
            if let Some(id) = entry.subtask_id {
                proof {
                    positions_find_subtasks(store@, id);
                }
                let subtask = store.subtasks[find_subtask(store, id).unwrap()].shown();
                assert(subtask@ == subtask_of(item));
                subtasks.push(subtask);
                seen.push(entry);
                proof {
                    assert(models(seen@) == models(seen_before).push(item));
                    assert(before.push(item).map_values(subtask_of) == before.map_values(
                        subtask_of,
                    ).push(subtask_of(item)));
                }
            }
        }
    }
    assert(all.take(all.len() as int) == all);
    subtasks
}

// ---------------------------------------------------------------------------
// Open tasks
// ---------------------------------------------------------------------------

/// Whether a task is open.
pub open spec fn is_open() -> spec_fn(TaskModel) -> bool {
    |task: TaskModel| task.closed_at is None
}

/// Tasks that were updated later come first; of those updated together, the one
/// whose name comes first.
pub open spec fn latest_first() -> spec_fn(TaskModel, TaskModel) -> bool {
    |a: TaskModel, b: TaskModel|
        text_before(b.updated_at, a.updated_at) || (a.updated_at == b.updated_at && text_before(
            a.name,
            b.name,
        ))
}

/// Tasks can be sorted by when they were updated.
pub proof fn latest_first_can_sort()
    ensures
        can_sort(latest_first()),
{
    let before = latest_first();
    assert forall|a: TaskModel, b: TaskModel| #[trigger] before(a, b) implies !before(b, a) by {
        text_order_is_irreflexive(a.updated_at);
        text_order_is_irreflexive(a.name);
        if text_before(a.updated_at, b.updated_at) && text_before(b.updated_at, a.updated_at) {
            text_order_is_transitive(a.updated_at, b.updated_at, a.updated_at);
        }
        if text_before(a.name, b.name) && text_before(b.name, a.name) {
            text_order_is_transitive(a.name, b.name, a.name);
        }
    }
    assert forall|a: TaskModel, b: TaskModel, c: TaskModel| #[trigger]
        before(a, c) && !(#[trigger] before(a, b)) implies before(b, c) by {
        text_order_is_total(a.updated_at, b.updated_at);
        text_order_is_total(a.name, b.name);
        if text_before(c.updated_at, a.updated_at) && text_before(a.updated_at, b.updated_at) {
            text_order_is_transitive(c.updated_at, a.updated_at, b.updated_at);
        }
        if text_before(b.name, a.name) && text_before(a.name, c.name) {
            text_order_is_transitive(b.name, a.name, c.name);
        }
    }
}

impl StoreModel {
    /// A task with the subtasks recorded against it.
    pub open spec fn with_subtasks(self) -> spec_fn(TaskModel) -> TaskWithSubtasksModel {
        |task: TaskModel|
            TaskWithSubtasksModel { task, subtasks: self.subtasks_for_task(task.id) }
    }

    /// The open tasks, the one that was updated last first.
    pub open spec fn list_tasks(self) -> Seq<TaskWithSubtasksModel> {
        stable_sorted(self.tasks.filter(is_open()), latest_first()).map_values(self.with_subtasks())
    }

    /// Finds or creates a task, and shows it with the subtasks recorded against it.
    pub open spec fn create_task(self, input: TaskInputModel, now: Seq<char>) -> Result<
        (StoreModel, TaskWithSubtasksModel),
        TrackerError,
    > {
        match self.upsert_task(input, now) {
            Ok(done) => Ok((done.0, done.0.with_subtasks()(done.1))),
            Err(error) => Err(error),
        }
    }
}

/// The open tasks, the one that was updated last first, each with the subtasks
/// recorded against it.
pub fn list_tasks_inner(store: &Store) -> (result: Vec<TaskWithSubtasks>)
    requires
        store@.wf(),
    ensures
        models(result@) == store@.list_tasks(),
{
    broadcast use models_of_push;

    let passes = |task: &Task| -> (answer: bool)
        ensures
            answer == (task@.closed_at is None),
    {
        task.closed_at.is_none()
    };
    let comes_before = |a: &&Task, b: &&Task| -> (answer: bool)
        ensures
            answer == latest_first()(a@, b@),
    {
        is_before(b.updated_at.as_str(), a.updated_at.as_str()) || (same_text(
            a.updated_at.as_str(),
            b.updated_at.as_str(),
        ) && is_before(a.name.as_str(), b.name.as_str()))
    };
    proof {
        latest_first_can_sort();
    }
    let open = select_by(&store.tasks, passes, Ghost(is_open()));
    let sorted = sort_by(open, comes_before, Ghost(latest_first()));
    let ghost all = stable_sorted(store@.tasks.filter(is_open()), latest_first());
    let ghost shown = all.map_values(store@.with_subtasks());
    let mut tasks: Vec<TaskWithSubtasks> = Vec::new();
    assert(models(tasks@) == shown.take(0));
    for i in 0..sorted.len()
        invariant
            store@.wf(),
            models(sorted@) == all,
            shown == all.map_values(store@.with_subtasks()),
            models(tasks@) == shown.take(i as int),
    {
        assert(sorted@[i as int]@ == all[i as int]);
        let item = TaskWithSubtasks {
            task: sorted[i].clone(),
            subtasks: subtasks_for_task(store, sorted[i].id),
        };
        assert(item@ == shown[i as int]);
        tasks.push(item);
        assert(shown.take(i + 1) == shown.take(i as int).push(shown[i as int]));
    }
    assert(shown.take(shown.len() as int) == shown);
    tasks
}

/// Finds or creates a task at a given instant, and shows it with the subtasks
/// recorded against it.
pub fn create_task_inner_at(
    store: &mut Store,
    input: TaskInput,
    now: Timestamp,
) -> (result: Result<TaskWithSubtasks, TrackerError>)
    requires
        old(store)@.wf(),
        now.valid(),
    ensures
        carried_out(
            result,
            old(store)@,
            final(store)@,
            old(store)@.create_task(input@, utc_text(now)),
        ),
        final(store)@.wf(),
{
    let now = format_utc(now);
    match upsert_task(store, &input, now.as_str()) {
        Ok(task) => {
            let subtasks = subtasks_for_task(store, task.id);
            Ok(TaskWithSubtasks { task, subtasks })
        },
        Err(error) => Err(error),
    }
}

/// Finds or creates a task now, and shows it with the subtasks recorded against
/// it.
pub fn create_task_inner(
    store: &mut Store,
    input: TaskInput,
) -> (result: Result<TaskWithSubtasks, TrackerError>)
    requires
        old(store)@.wf(),
    ensures
        exists|now: Timestamp| #[trigger]
            now.from_clock() && carried_out(
                result,
                old(store)@,
                final(store)@,
                old(store)@.create_task(input@, utc_text(now)),
            ),
        final(store)@.wf(),
{
    let now = utc_now();
    create_task_inner_at(store, input, now)
}

} // verus!
