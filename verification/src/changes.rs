//! What has to be written down after a request: the rows that differ.

use vstd::prelude::*;
use crate::lists::{
    filtered_items_were_there, find_by, models, passing_items_are_kept, position,
    position_is_the_first, select_by,
};
use crate::records::{SubtaskRow, SubtaskRowModel, Task, TaskModel, TimeEntry, TimeEntryModel};
use crate::store::{find_subtask, subtask_has_id, Store, StoreModel};

verus! {

/// The rows to be written, in place of those with their identifiers if there are
/// any, and the subtasks to be removed.
#[derive(Debug)]
pub struct Changes<'a> {
    pub tasks: Vec<&'a Task>,
    pub subtasks: Vec<&'a SubtaskRow>,
    pub entries: Vec<&'a TimeEntry>,
    pub removed_subtasks: Vec<&'a SubtaskRow>,
}

/// Whether a row is not among others.
pub open spec fn is_new_to<V>(rows: Seq<V>) -> spec_fn(V) -> bool {
    |row: V| !rows.contains(row)
}

/// Whether a row's identifier is not among those of others.
pub open spec fn is_gone_from(rows: Seq<SubtaskRowModel>) -> spec_fn(SubtaskRowModel) -> bool {
    |row: SubtaskRowModel| position(rows, subtask_has_id(row.id)) is None
}

/// A row like another.
pub open spec fn is_like<V>(row: V) -> spec_fn(V) -> bool {
    |other: V| other == row
}

/// A row is among others where one like it is found.
proof fn lemma_found_if_there<V>(rows: Seq<V>, row: V)
    ensures
        position(rows, is_like(row)) is Some <==> rows.contains(row),
{
    position_is_the_first(rows, is_like(row));
    if rows.contains(row) {
        let i = choose|i: int| 0 <= i < rows.len() && rows[i] == row;
        assert(is_like(row)(rows[i]));
    }
}

/// Whether a task is among others.
fn holds_task(rows: &Vec<Task>, row: &Task) -> (result: bool)
    ensures
        result == models(rows@).contains(row@),
{
    let passes = |other: &Task| -> (same: bool)
        ensures
            same == (other@ == row@),
    {
        other.same(row)
    };
    proof {
        lemma_found_if_there(models(rows@), row@);
    }
    find_by(rows, passes, Ghost(is_like(row@))).is_some()
}

/// Whether a subtask is among others.
fn holds_subtask(rows: &Vec<SubtaskRow>, row: &SubtaskRow) -> (result: bool)
    ensures
        result == models(rows@).contains(row@),
{
    let passes = |other: &SubtaskRow| -> (same: bool)
        ensures
            same == (other@ == row@),
    {
        other.same(row)
    };
    proof {
        lemma_found_if_there(models(rows@), row@);
    }
    find_by(rows, passes, Ghost(is_like(row@))).is_some()
}

/// Whether an entry is among others.
fn holds_entry(rows: &Vec<TimeEntry>, row: &TimeEntry) -> (result: bool)
    ensures
        result == models(rows@).contains(row@),
{
    let passes = |other: &TimeEntry| -> (same: bool)
        ensures
            same == (other@ == row@),
    {
        other.same(row)
    };
    proof {
        lemma_found_if_there(models(rows@), row@);
    }
    find_by(rows, passes, Ghost(is_like(row@))).is_some()
}

/// Finds what has to be written down to get from one state of the tables to
/// another.
pub fn changes<'a>(before: &'a Store, after: &'a Store) -> (result: Changes<'a>)
    ensures
        models(result.tasks@) == after@.tasks.filter(is_new_to(before@.tasks)),
        models(result.subtasks@) == after@.subtasks.filter(is_new_to(before@.subtasks)),
        models(result.entries@) == after@.entries.filter(is_new_to(before@.entries)),
        models(result.removed_subtasks@) == before@.subtasks.filter(is_gone_from(after@.subtasks)),
{
    let task_is_new = |row: &Task| -> (answer: bool)
        ensures
            answer == !before@.tasks.contains(row@),
    {
        !holds_task(&before.tasks, row)
    };
    let subtask_is_new = |row: &SubtaskRow| -> (answer: bool)
        ensures
            answer == !before@.subtasks.contains(row@),
    {
        !holds_subtask(&before.subtasks, row)
    };
    let entry_is_new = |row: &TimeEntry| -> (answer: bool)
        ensures
            answer == !before@.entries.contains(row@),
    {
        !holds_entry(&before.entries, row)
    };
    let subtask_is_gone = |row: &SubtaskRow| -> (answer: bool)
        ensures
            answer == is_gone_from(after@.subtasks)(row@),
    {
        find_subtask(after, row.id).is_none()
    };
    Changes {
        tasks: select_by(&after.tasks, task_is_new, Ghost(is_new_to(before@.tasks))),
        subtasks: select_by(&after.subtasks, subtask_is_new, Ghost(is_new_to(before@.subtasks))),
        entries: select_by(&after.entries, entry_is_new, Ghost(is_new_to(before@.entries))),
        removed_subtasks: select_by(
            &before.subtasks,
            subtask_is_gone,
            Ghost(is_gone_from(after@.subtasks)),
        ),
    }
}

// ---------------------------------------------------------------------------
// Laws
// ---------------------------------------------------------------------------

/// Whether the rows of a table have identifiers of their own.
pub open spec fn ids_differ<V>(rows: Seq<V>, id: spec_fn(V) -> i64) -> bool {
    forall|i: int, j: int|
        0 <= i < rows.len() && 0 <= j < rows.len() && id(#[trigger] rows[i]) == id(
            #[trigger] rows[j],
        ) ==> i == j
}

/// Whether a row has the identifier of another among some.
pub open spec fn is_replaced<V>(row: V, rows: Seq<V>, id: spec_fn(V) -> i64) -> bool {
    exists|i: int| 0 <= i < rows.len() && id(#[trigger] rows[i]) == id(row)
}

/// Writing the rows that are new, in place of those with their identifiers, and
/// dropping those whose identifiers are gone leads from one state of a table to
/// the other.
pub proof fn written_changes_lead_there<V>(
    before: Seq<V>,
    after: Seq<V>,
    id: spec_fn(V) -> i64,
    row: V,
)
    requires
        ids_differ(before, id),
        ids_differ(after, id),
    ensures
        after.contains(row) <==> {
            let written = after.filter(is_new_to(before));
            written.contains(row) || (before.contains(row) && !is_replaced(row, written, id)
                && is_replaced(row, after, id))
        },
{
    let written = after.filter(is_new_to(before));
    filtered_items_were_there(after, is_new_to(before));
    if after.contains(row) {
        let k = choose|k: int| 0 <= k < after.len() && after[k] == row;
        assert(is_replaced(row, after, id));
        if before.contains(row) {
            if is_replaced(row, written, id) {
                let i = choose|i: int|
                    0 <= i < written.len() && id(#[trigger] written[i]) == id(row);
                assert(after.contains(written[i]));
                let j = choose|j: int| 0 <= j < after.len() && after[j] == written[i];
                assert(id(after[j]) == id(after[k]));
            }
        } else {
            passing_items_are_kept(after, is_new_to(before), row);
        }
    }
    if written.contains(row) {
        let i = choose|i: int| 0 <= i < written.len() && written[i] == row;
        assert(after.contains(written[i]));
    }
    if before.contains(row) && !is_replaced(row, written, id) && is_replaced(row, after, id) {
        let k = choose|k: int| 0 <= k < after.len() && id(#[trigger] after[k]) == id(row);
        let found = after[k];
        assert(after.contains(found));
        if before.contains(found) {
            let i = choose|i: int| 0 <= i < before.len() && before[i] == found;
            let j = choose|j: int| 0 <= j < before.len() && before[j] == row;
            assert(id(before[i]) == id(before[j]));
        } else {
            passing_items_are_kept(after, is_new_to(before), found);
            let i = choose|i: int| 0 <= i < written.len() && written[i] == found;
            assert(id(written[i]) == id(row));
        }
    }
}

/// Written are the rows of the new state that the old one does not hold, and removed
/// are the subtasks of the old state whose identifiers the new one does not have.
pub proof fn changes_are_the_difference(
    before: StoreModel,
    after: StoreModel,
    task: TaskModel,
    subtask: SubtaskRowModel,
    entry: TimeEntryModel,
)
    ensures
        after.tasks.filter(is_new_to(before.tasks)).contains(task) <==> after.tasks.contains(task)
            && !before.tasks.contains(task),
        after.subtasks.filter(is_new_to(before.subtasks)).contains(subtask)
            <==> after.subtasks.contains(subtask) && !before.subtasks.contains(subtask),
        after.entries.filter(is_new_to(before.entries)).contains(entry)
            <==> after.entries.contains(entry) && !before.entries.contains(entry),
        before.subtasks.filter(is_gone_from(after.subtasks)).contains(subtask)
            <==> before.subtasks.contains(subtask) && forall|k: int|
            0 <= k < after.subtasks.len() ==> (#[trigger] after.subtasks[k]).id != subtask.id,
{
    lemma_kept_exactly(after.tasks, is_new_to(before.tasks), task);
    lemma_kept_exactly(after.subtasks, is_new_to(before.subtasks), subtask);
    lemma_kept_exactly(after.entries, is_new_to(before.entries), entry);
    lemma_kept_exactly(before.subtasks, is_gone_from(after.subtasks), subtask);
    position_is_the_first(after.subtasks, subtask_has_id(subtask.id));
    if let Some(k) = position(after.subtasks, subtask_has_id(subtask.id)) {
        assert(after.subtasks[k].id == subtask.id);
    } else {
        assert forall|k: int| 0 <= k < after.subtasks.len() implies (
        #[trigger] after.subtasks[k]).id != subtask.id by {
            assert(!subtask_has_id(subtask.id)(after.subtasks[k]));
        }
    }
}

/// A filter keeps what was there and passes.
proof fn lemma_kept_exactly<V>(s: Seq<V>, test: spec_fn(V) -> bool, row: V)
    ensures
        s.filter(test).contains(row) <==> s.contains(row) && test(row),
{
    filtered_items_were_there(s, test);
    if s.filter(test).contains(row) {
        let k = choose|k: int| 0 <= k < s.filter(test).len() && s.filter(test)[k] == row;
        assert(s.contains(s.filter(test)[k]));
    }
    if s.contains(row) && test(row) {
        passing_items_are_kept(s, test, row);
    }
}

} // verus!
