//! What lists and reports hold, row by row and field by field.

use vstd::prelude::*;
use crate::clock::{entry_seconds_in, utc_text, ReportRange, Timestamp};
use crate::entries::{newest, newest_are_recorded, newest_first, newest_first_can_sort};
use crate::error::TrackerError;
use crate::lists::{
    filtered_items_were_there, filtering_keeps_marks_apart, filtering_keeps_order, firsts,
    firsts_come_first, firsts_keep_order, firsts_stand_for_their_groups, firsts_were_there,
    is_grouping, lemma_firsts_are_fewer, passing_items_are_kept, position, position_is_the_first,
    sorted_items_were_there, sorting_is_stable, sorting_keeps_marks_apart,
    sorting_orders_the_same_items, stable_sorted, sum_of,
};
use crate::records::{
    SubtaskModel, SubtaskSummaryModel, SummaryModel, TaskModel, TimeEntryModel, TimeEntryViewModel,
};
use crate::report_laws::{lemma_row_amounts, summaries_are_in_order};
use crate::reports::{is_unreadable, lasts_in, reaches_into};
use crate::store::{positions_find_subtasks, StoreModel};
use crate::subtask_laws::{lemma_usage_is_a_sum, seconds_for};
use crate::subtasks::{by_name, by_name_can_sort, of_subtask};
use crate::summaries::{
    by_name_and_time, by_name_and_time_can_sort, can_hold, group_of, group_rows, grouped_with,
    lemma_part_of_total, longest_first, longest_subtask_first, none_negative, rows_fit,
    same_subtask, same_task, same_task_and_subtask, subtask_rows, summary_by_subtask,
    summary_by_task, summary_by_task_and_subtask, total_seconds,
};
use crate::tasks::{is_open, latest_first, latest_first_can_sort, shares_subtask, uses_subtask};
use crate::text::{text_before, text_order_is_irreflexive, text_order_is_total};
use crate::timers::lemma_picked_are_recorded;

verus! {

// ---------------------------------------------------------------------------
// Open tasks
// ---------------------------------------------------------------------------

/// Every listed task is a row that is open, with the subtasks recorded against it,
/// and every row that is open is listed, once.
pub proof fn every_open_task_is_listed_once(m: StoreModel)
    requires
        m.wf(),
    ensures
        forall|k: int|
            #![trigger m.list_tasks()[k]]
            0 <= k < m.list_tasks().len() ==> {
                let item = m.list_tasks()[k];
                &&& m.tasks.contains(item.task)
                &&& item.task.closed_at is None
                &&& item.subtasks == m.subtasks_for_task(item.task.id)
            },
        forall|i: int|
            0 <= i < m.tasks.len() && (#[trigger] m.tasks[i]).closed_at is None ==> exists|k: int|
                0 <= k < m.list_tasks().len() && (#[trigger] m.list_tasks()[k]).task == m.tasks[i],
        forall|i: int, j: int|
            0 <= i < j < m.list_tasks().len() ==> (#[trigger] m.list_tasks()[i]).task.id != (
            #[trigger] m.list_tasks()[j]).task.id,
{
    let open = m.tasks.filter(is_open());
    let sorted = stable_sorted(open, latest_first());
    let listed = m.list_tasks();
    let id = |task: TaskModel| task.id;
    latest_first_can_sort();
    sorted_items_were_there(open, latest_first());
    filtered_items_were_there(m.tasks, is_open());
    assert forall|k: int|
        #![trigger listed[k]]
        0 <= k < listed.len() implies {
        &&& m.tasks.contains(listed[k].task)
        &&& listed[k].task.closed_at is None
        &&& listed[k].subtasks == m.subtasks_for_task(listed[k].task.id)
    } by {
        assert(sorted.contains(sorted[k]));
        let i = choose|i: int| 0 <= i < open.len() && open[i] == sorted[k];
        assert(m.tasks.contains(open[i]));
    }
    assert forall|i: int|
        0 <= i < m.tasks.len() && (#[trigger] m.tasks[i]).closed_at is None implies exists|k: int|
        0 <= k < listed.len() && (#[trigger] listed[k]).task == m.tasks[i] by {
        assert(m.tasks.contains(m.tasks[i]));
        passing_items_are_kept(m.tasks, is_open(), m.tasks[i]);
        assert(sorted.contains(m.tasks[i]));
        let k = choose|k: int| 0 <= k < sorted.len() && sorted[k] == m.tasks[i];
        assert(listed[k].task == m.tasks[i]);
    }
    assert forall|i: int, j: int| 0 <= i < j < m.tasks.len() implies id(#[trigger] m.tasks[i])
        != id(#[trigger] m.tasks[j]) by {
        assert(m.tasks[i].id < m.tasks[j].id);
    }
    filtering_keeps_marks_apart(m.tasks, is_open(), id);
    sorting_keeps_marks_apart(open, latest_first(), id);
    assert forall|i: int, j: int| 0 <= i < j < listed.len() implies (
    #[trigger] listed[i]).task.id != (#[trigger] listed[j]).task.id by {
        assert(id(sorted[i]) != id(sorted[j]));
    }
}

/// Listed tasks stand in the order of when they were updated, the latest first; of
/// those updated together, in the order of their names.
pub proof fn listed_tasks_stand_by_update_and_name(m: StoreModel, i: int, j: int)
    requires
        0 <= i < j < m.list_tasks().len(),
    ensures
        ({
            let a = m.list_tasks()[i].task;
            let b = m.list_tasks()[j].task;
            &&& !text_before(a.updated_at, b.updated_at)
            &&& a.updated_at == b.updated_at ==> !text_before(b.name, a.name)
        }),
{
    latest_first_can_sort();
    let sorted = stable_sorted(m.tasks.filter(is_open()), latest_first());
    sorting_orders_the_same_items(m.tasks.filter(is_open()), latest_first());
    assert(!latest_first()(sorted[j], sorted[i]));
}

// ---------------------------------------------------------------------------
// The subtasks of a task
// ---------------------------------------------------------------------------

/// Whether an entry is one of a task with a subtask.
pub open spec fn is_use(entry: TimeEntryModel, task_id: i64, subtask_id: i64) -> bool {
    entry.task_id == task_id && entry.subtask_id == Some(subtask_id)
}

/// The subtasks of a task are those that its entries have, each once, as their rows
/// hold them.
pub proof fn a_task_has_the_subtasks_of_its_entries(m: StoreModel, task_id: i64)
    requires
        m.wf(),
    ensures
        forall|k: int|
            #![trigger m.subtasks_for_task(task_id)[k]]
            0 <= k < m.subtasks_for_task(task_id).len() ==> {
                let subtask = m.subtasks_for_task(task_id)[k];
                &&& m.subtask(subtask.id) == Ok::<SubtaskModel, TrackerError>(subtask)
                &&& exists|e: int|
                    0 <= e < m.entries.len() && is_use(
                        #[trigger] m.entries[e],
                        task_id,
                        subtask.id,
                    )
            },
        forall|e: int|
            0 <= e < m.entries.len() && (#[trigger] m.entries[e]).task_id == task_id
                && m.entries[e].subtask_id is Some ==> exists|k: int|
                0 <= k < m.subtasks_for_task(task_id).len() && (#[trigger] m.subtasks_for_task(
                    task_id,
                )[k]).id == m.entries[e].subtask_id->Some_0,
        forall|i: int, j: int|
            0 <= i < j < m.subtasks_for_task(task_id).len() ==> (#[trigger] m.subtasks_for_task(
                task_id,
            )[i]).id != (#[trigger] m.subtasks_for_task(task_id)[j]).id,
{
    let test = uses_subtask(task_id);
    let grouped = shares_subtask();
    let kept = m.entries.filter(test);
    let sorted = newest(kept);
    let uses = firsts(sorted, grouped);
    let shown = m.subtasks_for_task(task_id);
    assert(is_grouping(grouped));
    lemma_picked_are_recorded(m.entries, test);
    firsts_were_there(sorted, grouped);
    firsts_stand_for_their_groups(sorted, grouped);
    assert forall|k: int| 0 <= k < uses.len() implies m.entries.contains(#[trigger] uses[k])
        && test(uses[k]) && m.resolves(uses[k]) && m.subtask(uses[k].subtask_id->Some_0) == Ok::<
        SubtaskModel,
        TrackerError,
    >(shown[k]) && shown[k].id == uses[k].subtask_id->Some_0 by {
        assert(sorted.contains(uses[k]));
        let p = choose|p: int| 0 <= p < sorted.len() && sorted[p] == uses[k];
        assert(m.entries.contains(sorted[p]));
        let e = choose|e: int| 0 <= e < m.entries.len() && m.entries[e] == uses[k];
        assert(m.resolves(m.entries[e]));
        positions_find_subtasks(m, uses[k].subtask_id->Some_0);
    }
    assert forall|k: int|
        #![trigger shown[k]]
        0 <= k < shown.len() implies {
        &&& m.subtask(shown[k].id) == Ok::<SubtaskModel, TrackerError>(shown[k])
        &&& exists|e: int|
            0 <= e < m.entries.len() && is_use(#[trigger] m.entries[e], task_id, shown[k].id)
    } by {
        assert(m.entries.contains(uses[k]));
        let e = choose|e: int| 0 <= e < m.entries.len() && m.entries[e] == uses[k];
        assert(is_use(m.entries[e], task_id, shown[k].id));
    }
    newest_first_can_sort();
    sorted_items_were_there(kept, newest_first());
    assert forall|e: int|
        0 <= e < m.entries.len() && (#[trigger] m.entries[e]).task_id == task_id
            && m.entries[e].subtask_id is Some implies exists|k: int|
        0 <= k < shown.len() && (#[trigger] shown[k]).id == m.entries[e].subtask_id->Some_0 by {
        assert(m.entries.contains(m.entries[e]));
        passing_items_are_kept(m.entries, test, m.entries[e]);
        assert(sorted.contains(m.entries[e]));
        let p = choose|p: int| 0 <= p < sorted.len() && sorted[p] == m.entries[e];
        let k = choose|k: int| 0 <= k < uses.len() && grouped(#[trigger] uses[k], sorted[p]);
        assert(m.entries.contains(uses[k]));
        assert(shown[k].id == m.entries[e].subtask_id->Some_0);
    }
    assert forall|i: int, j: int| 0 <= i < j < shown.len() implies (#[trigger] shown[i]).id != (
    #[trigger] shown[j]).id by {
        assert(!grouped(uses[i], uses[j]));
        assert(m.entries.contains(uses[i]) && m.entries.contains(uses[j]));
    }
}

/// Of two subtasks of a task, the one that stands first was used last: some use of it
/// started no earlier than any use of the other.
pub proof fn subtasks_stand_by_their_last_use(m: StoreModel, task_id: i64, i: int, j: int)
    requires
        m.wf(),
        0 <= i < j < m.subtasks_for_task(task_id).len(),
    ensures
        exists|a: int|
            0 <= a < m.entries.len() && is_use(
                #[trigger] m.entries[a],
                task_id,
                m.subtasks_for_task(task_id)[i].id,
            ) && forall|b: int|
                0 <= b < m.entries.len() && is_use(
                    #[trigger] m.entries[b],
                    task_id,
                    m.subtasks_for_task(task_id)[j].id,
                ) ==> !text_before(m.entries[a].started_at, m.entries[b].started_at),
{
    let test = uses_subtask(task_id);
    let grouped = shares_subtask();
    let before = newest_first();
    let kept = m.entries.filter(test);
    let sorted = newest(kept);
    let uses = firsts(sorted, grouped);
    let shown = m.subtasks_for_task(task_id);
    assert(is_grouping(grouped));
    newest_first_can_sort();
    lemma_picked_are_recorded(m.entries, test);
    sorting_orders_the_same_items(kept, before);
    sorted_items_were_there(kept, before);
    firsts_were_there(sorted, grouped);
    firsts_keep_order(sorted, grouped, before);
    assert forall|k: int| 0 <= k < uses.len() implies m.entries.contains(#[trigger] uses[k])
        && test(uses[k]) && shown[k].id == uses[k].subtask_id->Some_0 by {
        assert(sorted.contains(uses[k]));
        let p = choose|p: int| 0 <= p < sorted.len() && sorted[p] == uses[k];
        assert(m.entries.contains(sorted[p]));
        let e = choose|e: int| 0 <= e < m.entries.len() && m.entries[e] == uses[k];
        assert(m.resolves(m.entries[e]));
        positions_find_subtasks(m, uses[k].subtask_id->Some_0);
    }
    assert(m.entries.contains(uses[i]) && m.entries.contains(uses[j]));
    let a = choose|a: int| 0 <= a < m.entries.len() && m.entries[a] == uses[i];
    assert(!before(uses[j], uses[i]));
    assert(is_use(m.entries[a], task_id, shown[i].id));
    assert forall|b: int|
        0 <= b < m.entries.len() && is_use(
            #[trigger] m.entries[b],
            task_id,
            shown[j].id,
        ) implies !text_before(m.entries[a].started_at, m.entries[b].started_at) by {
        let entry = m.entries[b];
        assert(m.entries.contains(entry));
        passing_items_are_kept(m.entries, test, entry);
        assert(sorted.contains(entry));
        let p = choose|p: int| 0 <= p < sorted.len() && sorted[p] == entry;
        firsts_come_first(sorted, grouped, before, j, p);
        if text_before(uses[i].started_at, entry.started_at) {
            assert(before(entry, uses[i]));
            assert(!before(entry, uses[j]));
            assert(before(uses[j], uses[i]));
        }
    }
}

// ---------------------------------------------------------------------------
// Shared subtasks
// ---------------------------------------------------------------------------

/// The seconds that an entry is shown with.
pub open spec fn shown_seconds(m: StoreModel, now: Timestamp, id: i64) -> spec_fn(
    TimeEntryModel,
) -> int {
    |entry: TimeEntryModel|
        if entry.subtask_id == Some(id) {
            m.entry_view(entry, now).duration_seconds as int
        } else {
            0
        }
}

/// Every subtask is listed, once, as its row holds it, with the number of its entries
/// and the time that they are shown with.
pub proof fn every_subtask_is_listed_with_its_use(m: StoreModel, now: Timestamp)
    requires
        m.wf(),
        m.list_subtasks(now) is Ok,
    ensures
        ({
            let listed = m.list_subtasks(now)->Ok_0;
            &&& listed.len() == m.subtasks.len()
            &&& forall|k: int|
                #![trigger listed[k]]
                0 <= k < listed.len() ==> exists|i: int|
                    {
                        let row = #[trigger] m.subtasks[i];
                        &&& 0 <= i < m.subtasks.len()
                        &&& listed[k].id == row.id
                        &&& listed[k].name == row.name
                        &&& listed[k].archived_at == row.archived_at
                        &&& listed[k].created_at == row.created_at
                        &&& listed[k].entry_count == m.entries.filter(
                            |entry: TimeEntryModel| entry.subtask_id == Some(row.id),
                        ).len()
                        &&& listed[k].total_seconds == sum_of(
                            m.entries,
                            shown_seconds(m, now, row.id),
                        )
                    }
            &&& forall|i: int|
                0 <= i < m.subtasks.len() ==> exists|k: int|
                    0 <= k < listed.len() && (#[trigger] listed[k]).id == (
                    #[trigger] m.subtasks[i]).id
        }),
{
    let sorted = stable_sorted(m.subtasks, by_name());
    let listed = m.list_subtasks(now)->Ok_0;
    by_name_can_sort();
    sorted_items_were_there(m.subtasks, by_name());
    assert forall|k: int|
        #![trigger listed[k]]
        0 <= k < listed.len() implies exists|i: int|
        {
            let row = #[trigger] m.subtasks[i];
            &&& 0 <= i < m.subtasks.len()
            &&& listed[k].id == row.id
            &&& listed[k].name == row.name
            &&& listed[k].archived_at == row.archived_at
            &&& listed[k].created_at == row.created_at
            &&& listed[k].entry_count == m.entries.filter(
                |entry: TimeEntryModel| entry.subtask_id == Some(row.id),
            ).len()
            &&& listed[k].total_seconds == sum_of(m.entries, shown_seconds(m, now, row.id))
        } by {
        assert(sorted.contains(sorted[k]));
        let i = choose|i: int| 0 <= i < m.subtasks.len() && m.subtasks[i] == sorted[k];
        let id = m.subtasks[i].id;
        assert(can_hold(m.entries_of_subtask(m.subtasks[i].id, now)));
        assert(of_subtask(id) =~= (|entry: TimeEntryModel| entry.subtask_id == Some(id)));
        lemma_usage_is_a_sum(m, m.entries, id, now);
        lemma_sums_agree(m.entries, seconds_for(id, now), shown_seconds(m, now, id));
        lemma_sum_is_not_negative(m.entries, shown_seconds(m, now, id));
    }
    assert forall|i: int| 0 <= i < m.subtasks.len() implies exists|k: int|
        0 <= k < listed.len() && (#[trigger] listed[k]).id == (#[trigger] m.subtasks[i]).id by {
        assert(m.subtasks.contains(m.subtasks[i]));
        assert(sorted.contains(m.subtasks[i]));
        let k = choose|k: int| 0 <= k < sorted.len() && sorted[k] == m.subtasks[i];
        assert(listed[k].id == m.subtasks[i].id);
    }
}

/// Amounts that agree on every item add up to the same.
proof fn lemma_sums_agree<T>(s: Seq<T>, a: spec_fn(T) -> int, b: spec_fn(T) -> int)
    requires
        forall|item: T| #[trigger] a(item) == b(item),
    ensures
        sum_of(s, a) == sum_of(s, b),
    decreases s.len(),
{
    if s.len() > 0 {
        lemma_sums_agree(s.drop_last(), a, b);
        assert(a(s.last()) == b(s.last()));
    }
}

/// Amounts of which none is negative add up to one that is not.
proof fn lemma_sum_is_not_negative<T>(s: Seq<T>, amount: spec_fn(T) -> int)
    requires
        forall|item: T| #[trigger] amount(item) >= 0,
    ensures
        sum_of(s, amount) >= 0,
    decreases s.len(),
{
    if s.len() > 0 {
        lemma_sum_is_not_negative(s.drop_last(), amount);
        assert(amount(s.last()) >= 0);
    }
}

/// The list of subtasks is refused exactly where the time or the number of the
/// entries of one of them is too large to be held.
pub proof fn the_list_is_refused_for_one_subtask_alone(m: StoreModel, now: Timestamp)
    ensures
        match m.list_subtasks(now) {
            Ok(_) => forall|i: int|
                0 <= i < m.subtasks.len() ==> sum_of(
                    m.entries,
                    shown_seconds(m, now, (#[trigger] m.subtasks[i]).id),
                ) <= i64::MAX,
            Err(error) => error is TotalOutOfRange && exists|i: int|
                0 <= i < m.subtasks.len() && (sum_of(
                    m.entries,
                    shown_seconds(m, now, (#[trigger] m.subtasks[i]).id),
                ) > i64::MAX || m.entries.len() > i64::MAX),
        },
{
    assert forall|id: i64| #[trigger] can_hold(m.entries_of_subtask(id, now)) implies sum_of(
        m.entries,
        shown_seconds(m, now, id),
    ) <= i64::MAX by {
        lemma_usage_is_a_sum(m, m.entries, id, now);
        lemma_sums_agree(m.entries, seconds_for(id, now), shown_seconds(m, now, id));
    }
    if m.list_subtasks(now) is Err {
        let i = choose|i: int|
            0 <= i < m.subtasks.len() && !can_hold(
                m.entries_of_subtask((#[trigger] m.subtasks[i]).id, now),
            );
        let id = m.subtasks[i].id;
        lemma_usage_is_a_sum(m, m.entries, id, now);
        lemma_sums_agree(m.entries, seconds_for(id, now), shown_seconds(m, now, id));
        m.entries.lemma_filter_len(of_subtask(id));
    } else {
        assert forall|i: int| 0 <= i < m.subtasks.len() implies sum_of(
            m.entries,
            shown_seconds(m, now, (#[trigger] m.subtasks[i]).id),
        ) <= i64::MAX by {
            assert(can_hold(m.entries_of_subtask(m.subtasks[i].id, now)));
        }
    }
}

/// Subtasks are listed in the order of their names.
pub proof fn subtasks_stand_by_name(m: StoreModel, now: Timestamp, i: int, j: int)
    requires
        0 <= i < j < m.subtasks.len(),
    ensures
        m.all_subtasks().len() == m.subtasks.len(),
        !text_before(m.all_subtasks()[j].name, m.all_subtasks()[i].name),
        m.list_subtasks(now) matches Ok(listed) ==> listed.len() == m.subtasks.len()
            && !text_before(listed[j].name, listed[i].name),
{
    by_name_can_sort();
    let sorted = stable_sorted(m.subtasks, by_name());
    sorting_orders_the_same_items(m.subtasks, by_name());
    assert(!by_name()(sorted[j], sorted[i]));
}

/// All subtasks are shown, each as its row holds it.
pub proof fn every_subtask_is_shown(m: StoreModel)
    ensures
        m.all_subtasks().len() == m.subtasks.len(),
        forall|k: int|
            #![trigger m.all_subtasks()[k]]
            0 <= k < m.all_subtasks().len() ==> exists|i: int|
                {
                    let row = #[trigger] m.subtasks[i];
                    let shown = m.all_subtasks()[k];
                    &&& 0 <= i < m.subtasks.len()
                    &&& shown.id == row.id
                    &&& shown.name == row.name
                    &&& shown.archived_at == row.archived_at
                    &&& shown.created_at == row.created_at
                },
        forall|i: int|
            0 <= i < m.subtasks.len() ==> exists|k: int|
                0 <= k < m.all_subtasks().len() && (#[trigger] m.all_subtasks()[k]).id == (
                #[trigger] m.subtasks[i]).id,
{
    let sorted = stable_sorted(m.subtasks, by_name());
    let shown = m.all_subtasks();
    by_name_can_sort();
    sorted_items_were_there(m.subtasks, by_name());
    assert forall|k: int|
        #![trigger shown[k]]
        0 <= k < shown.len() implies exists|i: int|
        {
            let row = #[trigger] m.subtasks[i];
            &&& 0 <= i < m.subtasks.len()
            &&& shown[k].id == row.id
            &&& shown[k].name == row.name
            &&& shown[k].archived_at == row.archived_at
            &&& shown[k].created_at == row.created_at
        } by {
        assert(sorted.contains(sorted[k]));
        let i = choose|i: int| 0 <= i < m.subtasks.len() && m.subtasks[i] == sorted[k];
        assert(m.subtasks[i].id == shown[k].id);
    }
    assert forall|i: int| 0 <= i < m.subtasks.len() implies exists|k: int|
        0 <= k < shown.len() && (#[trigger] shown[k]).id == (#[trigger] m.subtasks[i]).id by {
        assert(m.subtasks.contains(m.subtasks[i]));
        assert(sorted.contains(m.subtasks[i]));
        let k = choose|k: int| 0 <= k < sorted.len() && sorted[k] == m.subtasks[i];
        assert(shown[k].id == m.subtasks[i].id);
    }
}

// ---------------------------------------------------------------------------
// Recent entries and reports
// ---------------------------------------------------------------------------

/// Recent entries are recorded ones as they are shown, each once; one that started
/// later stands first, and of those that started together the one recorded later.
pub proof fn recent_entries_are_recorded_ones(m: StoreModel, limit: i64, now: Timestamp)
    requires
        m.wf(),
    ensures
        forall|k: int|
            #![trigger m.recent_entries(limit, now)[k]]
            0 <= k < m.recent_entries(limit, now).len() ==> exists|i: int|
                0 <= i < m.entries.len() && m.recent_entries(limit, now)[k] == m.entry_view(
                    #[trigger] m.entries[i],
                    now,
                ),
        forall|j: int, k: int|
            0 <= j < k < m.recent_entries(limit, now).len() ==> {
                let a = #[trigger] m.recent_entries(limit, now)[j];
                let b = #[trigger] m.recent_entries(limit, now)[k];
                text_before(b.started_at, a.started_at) || (a.started_at == b.started_at && a.id
                    > b.id)
            },
{
    let sorted = newest(m.entries);
    let shown = m.recent_entries(limit, now);
    let id = |entry: TimeEntryModel| entry.id;
    newest_first_can_sort();
    newest_are_recorded(m.entries);
    sorting_orders_the_same_items(m.entries, newest_first());
    assert forall|i: int, j: int| 0 <= i < j < m.entries.len() implies id(#[trigger] m.entries[i])
        != id(#[trigger] m.entries[j]) by {
        assert(m.entries[i].id < m.entries[j].id);
    }
    sorting_keeps_marks_apart(m.entries, newest_first(), id);
    assert forall|k: int|
        #![trigger shown[k]]
        0 <= k < shown.len() implies exists|i: int|
        0 <= i < m.entries.len() && shown[k] == m.entry_view(#[trigger] m.entries[i], now) by {
        assert(m.entries.contains(sorted[k]));
        let i = choose|i: int| 0 <= i < m.entries.len() && m.entries[i] == sorted[k];
        assert(shown[k] == m.entry_view(m.entries[i], now));
    }
    assert forall|j: int, k: int| 0 <= j < k < shown.len() implies {
        let a = #[trigger] shown[j];
        let b = #[trigger] shown[k];
        text_before(b.started_at, a.started_at) || (a.started_at == b.started_at && a.id > b.id)
    } by {
        assert(!newest_first()(sorted[k], sorted[j]));
        assert(id(sorted[j]) != id(sorted[k]));
        text_order_is_total(sorted[j].started_at, sorted[k].started_at);
    }
}

/// Whether an entry belongs in a report over a range: it started before the end of
/// the range, ended no earlier than its start, running entries now, and at least a
/// second of it falls in the range.
pub open spec fn belongs_in(entry: TimeEntryModel, range: ReportRange, now: Timestamp) -> bool {
    let ended_at = if entry.ended_at is Some {
        entry.ended_at->Some_0
    } else {
        utc_text(now)
    };
    &&& text_before(entry.started_at, utc_text(range.end))
    &&& !text_before(ended_at, utc_text(range.start))
    &&& entry_seconds_in(entry.started_at, entry.ended_at, range, now) is Ok
    &&& entry_seconds_in(entry.started_at, entry.ended_at, range, now)->Ok_0 > 0
}

/// A report over a range holds the entries that belong in it, and no others, shown
/// with the seconds of each that fall in the range; one that started later stands
/// first.
pub proof fn a_report_holds_what_falls_in_its_range(
    m: StoreModel,
    range: ReportRange,
    now: Timestamp,
)
    requires
        m.report_entries(Some(range), now) is Ok,
    ensures
        ({
            let rows = m.report_entries(Some(range), now)->Ok_0;
            &&& forall|k: int|
                #![trigger rows[k]]
                0 <= k < rows.len() ==> exists|i: int|
                    {
                        let entry = #[trigger] m.entries[i];
                        let view = m.entry_view(entry, now);
                        let seconds = entry_seconds_in(
                            entry.started_at,
                            entry.ended_at,
                            range,
                            now,
                        )->Ok_0;
                        &&& 0 <= i < m.entries.len()
                        &&& belongs_in(entry, range, now)
                        &&& seconds <= i64::MAX ==> rows[k].duration_seconds == seconds
                        &&& rows[k].id == view.id
                        &&& rows[k].task_id == view.task_id
                        &&& rows[k].task_name == view.task_name
                        &&& rows[k].subtask_id == view.subtask_id
                        &&& rows[k].subtask_name == view.subtask_name
                        &&& rows[k].github_kind == view.github_kind
                        &&& rows[k].github_reference == view.github_reference
                        &&& rows[k].started_at == view.started_at
                        &&& rows[k].ended_at == view.ended_at
                        &&& rows[k].note == view.note
                    }
            &&& forall|i: int|
                0 <= i < m.entries.len() && belongs_in(#[trigger] m.entries[i], range, now)
                    ==> exists|k: int|
                    0 <= k < rows.len() && (#[trigger] rows[k]).id == m.entries[i].id
            &&& forall|j: int, k: int|
                0 <= j < k < rows.len() ==> !text_before(
                    (#[trigger] rows[j]).started_at,
                    (#[trigger] rows[k]).started_at,
                )
        }),
{
    let reaches = reaches_into(range, now);
    let lasts = lasts_in(range, now);
    let picked = m.entries.filter(reaches);
    let reached = newest(picked);
    let lasting = reached.filter(lasts);
    let rows = m.report_entries(Some(range), now)->Ok_0;
    newest_first_can_sort();
    sorting_orders_the_same_items(picked, newest_first());
    sorted_items_were_there(picked, newest_first());
    filtering_keeps_order(reached, lasts, newest_first());
    lemma_picked_are_recorded(m.entries, reaches);
    filtered_items_were_there(reached, lasts);
    assert forall|k: int|
        #![trigger rows[k]]
        0 <= k < rows.len() implies exists|i: int|
        {
            let entry = #[trigger] m.entries[i];
            let view = m.entry_view(entry, now);
            let seconds = entry_seconds_in(entry.started_at, entry.ended_at, range, now)->Ok_0;
            &&& 0 <= i < m.entries.len()
            &&& belongs_in(entry, range, now)
            &&& seconds <= i64::MAX ==> rows[k].duration_seconds == seconds
            &&& rows[k].id == view.id
            &&& rows[k].task_id == view.task_id
            &&& rows[k].task_name == view.task_name
            &&& rows[k].subtask_id == view.subtask_id
            &&& rows[k].subtask_name == view.subtask_name
            &&& rows[k].github_kind == view.github_kind
            &&& rows[k].github_reference == view.github_reference
            &&& rows[k].started_at == view.started_at
            &&& rows[k].ended_at == view.ended_at
            &&& rows[k].note == view.note
        } by {
        assert(reached.contains(lasting[k]));
        let p = choose|p: int| 0 <= p < reached.len() && reached[p] == lasting[k];
        assert(m.entries.contains(reached[p]) && reaches(reached[p]));
        let i = choose|i: int| 0 <= i < m.entries.len() && m.entries[i] == lasting[k];
        assert(lasts(lasting[k]));
        assert(belongs_in(m.entries[i], range, now));
    }
    assert forall|i: int|
        0 <= i < m.entries.len() && belongs_in(
            #[trigger] m.entries[i],
            range,
            now,
        ) implies exists|k: int|
        0 <= k < rows.len() && (#[trigger] rows[k]).id == m.entries[i].id by {
        let entry = m.entries[i];
        assert(m.entries.contains(entry));
        passing_items_are_kept(m.entries, reaches, entry);
        assert(reached.contains(entry));
        passing_items_are_kept(reached, lasts, entry);
        let k = choose|k: int| 0 <= k < lasting.len() && lasting[k] == entry;
        assert(rows[k].id == entry.id);
    }
    assert forall|j: int, k: int| 0 <= j < k < rows.len() implies !text_before(
        (#[trigger] rows[j]).started_at,
        (#[trigger] rows[k]).started_at,
    ) by {
        assert(!newest_first()(lasting[k], lasting[j]));
    }
}

/// A report over a range fails exactly where the times of an entry that reaches into
/// it cannot be read; one over everything never does, and is that of the newest
/// entries.
pub proof fn a_report_fails_on_unreadable_times_alone(
    m: StoreModel,
    range: ReportRange,
    now: Timestamp,
)
    ensures
        m.report_entries(None, now) == Ok::<Seq<TimeEntryViewModel>, TrackerError>(
            m.recent_entries(10_000, now),
        ),
        m.report_entries(Some(range), now) is Err <==> exists|i: int|
            {
                let entry = #[trigger] m.entries[i];
                let ended_at = if entry.ended_at is Some {
                    entry.ended_at->Some_0
                } else {
                    utc_text(now)
                };
                &&& 0 <= i < m.entries.len()
                &&& text_before(entry.started_at, utc_text(range.end))
                &&& !text_before(ended_at, utc_text(range.start))
                &&& entry_seconds_in(entry.started_at, entry.ended_at, range, now) is Err
            },
        m.report_entries(Some(range), now) matches Err(error) ==> error is Time,
{
    let reaches = reaches_into(range, now);
    let fails = is_unreadable(range, now);
    let picked = m.entries.filter(reaches);
    let reached = newest(picked);
    lemma_picked_are_recorded(m.entries, reaches);
    newest_first_can_sort();
    sorted_items_were_there(picked, newest_first());
    position_is_the_first(reached, fails);
    match position(reached, fails) {
        Some(p) => {
            assert(m.entries.contains(reached[p]) && reaches(reached[p]));
            let i = choose|i: int| 0 <= i < m.entries.len() && m.entries[i] == reached[p];
            assert(reaches(m.entries[i]));
        },
        None => {
            assert forall|i: int|
                0 <= i < m.entries.len() && reaches(#[trigger] m.entries[i]) implies !fails(
                m.entries[i],
            ) by {
                let entry = m.entries[i];
                assert(m.entries.contains(entry));
                passing_items_are_kept(m.entries, reaches, entry);
                assert(reached.contains(entry));
                let p = choose|p: int| 0 <= p < reached.len() && reached[p] == entry;
                assert(!fails(reached[p]));
            }
        },
    }
}

// ---------------------------------------------------------------------------
// Summaries
// ---------------------------------------------------------------------------

/// The time of entries is that of the first ones and of the rest together, and of one
/// entry its own.
pub proof fn time_adds_up(
    a: Seq<TimeEntryViewModel>,
    b: Seq<TimeEntryViewModel>,
    entry: TimeEntryViewModel,
)
    ensures
        total_seconds(a + b) == total_seconds(a) + total_seconds(b),
        total_seconds(seq![entry]) == entry.duration_seconds,
    decreases b.len(),
{
    let one = seq![entry];
    assert(one.drop_last() == Seq::<TimeEntryViewModel>::empty());
    assert(total_seconds(one.drop_last()) == 0);
    if b.len() == 0 {
        assert(a + b == a);
    } else {
        time_adds_up(a, b.drop_last(), entry);
        assert((a + b).drop_last() == a + b.drop_last());
    }
}

/// By task, and by subtask, the row with more time stands first. By task and subtask,
/// rows stand in the order of the tasks' names, and under one name the row with more
/// time stands first.
pub proof fn rows_stand_by_time(
    entries: Seq<TimeEntryViewModel>,
    i: int,
    j: int,
)
    requires
        0 <= i < j,
    ensures
        j < summary_by_task(entries).len() ==> summary_by_task(entries)[i].total_seconds
            >= summary_by_task(entries)[j].total_seconds,
        j < summary_by_subtask(entries).len() ==> summary_by_subtask(entries)[i].total_seconds
            >= summary_by_subtask(entries)[j].total_seconds,
        j < summary_by_task_and_subtask(entries).len() ==> {
            let a = summary_by_task_and_subtask(entries)[i];
            let b = summary_by_task_and_subtask(entries)[j];
            &&& !text_before(b.task_name, a.task_name)
            &&& a.task_name == b.task_name ==> a.total_seconds >= b.total_seconds
        },
{
    summaries_are_in_order(entries);
    if j < summary_by_task(entries).len() {
        assert(!longest_first()(summary_by_task(entries)[j], summary_by_task(entries)[i]));
    }
    if j < summary_by_subtask(entries).len() {
        assert(!longest_subtask_first()(
            summary_by_subtask(entries)[j],
            summary_by_subtask(entries)[i],
        ));
    }
    if j < summary_by_task_and_subtask(entries).len() {
        assert(!by_name_and_time()(
            summary_by_task_and_subtask(entries)[j],
            summary_by_task_and_subtask(entries)[i],
        ));
    }
}

/// A first item of a group is an item that no earlier one is grouped with.
proof fn lemma_first_of_group<T>(s: Seq<T>, grouped: spec_fn(T, T) -> bool, k: int) -> (i: int)
    requires
        is_grouping(grouped),
        0 <= k < firsts(s, grouped).len(),
    ensures
        0 <= i < s.len(),
        s[i] == firsts(s, grouped)[k],
        forall|j: int| 0 <= j < i ==> !grouped(#[trigger] s[j], s[i]),
    decreases s.len(),
{
    let t = s.drop_last();
    let was = firsts(t, grouped);
    if k < was.len() {
        assert(firsts(s, grouped)[k] == was[k]);
        let i = lemma_first_of_group(t, grouped, k);
        assert(s[i] == t[i]);
        assert forall|j: int| 0 <= j < i implies !grouped(#[trigger] s[j], s[i]) by {
            assert(s[j] == t[j]);
        }
        i
    } else {
        let i = s.len() - 1;
        firsts_stand_for_their_groups(t, grouped);
        assert forall|j: int| 0 <= j < i implies !grouped(#[trigger] s[j], s[i]) by {
            assert(t[j] == s[j]);
            let p = choose|p: int| 0 <= p < was.len() && grouped(#[trigger] was[p], t[j]);
            if grouped(s[j], s[i]) {
                assert(grouped(was[p], s[i]));
            }
        }
        i
    }
}

/// The first items of groups stand in the order of the items.
proof fn lemma_firsts_in_order<T>(
    s: Seq<T>,
    grouped: spec_fn(T, T) -> bool,
    p: int,
    q: int,
) -> (r: (int, int))
    requires
        is_grouping(grouped),
        0 <= p < q < firsts(s, grouped).len(),
    ensures
        0 <= r.0 < r.1 < s.len(),
        s[r.0] == firsts(s, grouped)[p],
        s[r.1] == firsts(s, grouped)[q],
        forall|j: int| 0 <= j < r.1 ==> !grouped(#[trigger] s[j], s[r.1]),
    decreases s.len(),
{
    let t = s.drop_last();
    let was = firsts(t, grouped);
    if q < was.len() {
        let r = lemma_firsts_in_order(t, grouped, p, q);
        assert(s[r.0] == t[r.0] && s[r.1] == t[r.1]);
        assert forall|j: int| 0 <= j < r.1 implies !grouped(#[trigger] s[j], s[r.1]) by {
            assert(s[j] == t[j]);
        }
        r
    } else {
        let a = lemma_first_of_group(t, grouped, p);
        let b = lemma_first_of_group(s, grouped, q);
        assert(s[a] == t[a]);
        if b < s.len() - 1 {
            assert(t[b] == s[b]);
            firsts_stand_for_their_groups(t, grouped);
            let k = choose|k: int| 0 <= k < was.len() && grouped(#[trigger] was[k], t[b]);
            firsts_stand_for_their_groups(s, grouped);
            assert(firsts(s, grouped)[k] == was[k]);
            assert(!grouped(firsts(s, grouped)[k], firsts(s, grouped)[q]));
        }
        (a, b)
    }
}

/// Of rows with the same time, the one whose entries came first stands first: before
/// every entry of the other there is one of its own. By task and subtask this holds
/// of rows under one name.
pub proof fn rows_with_the_same_time_keep_their_order(
    entries: Seq<TimeEntryViewModel>,
    i: int,
    j: int,
    b: int,
)
    requires
        0 <= i < j,
        0 <= b < entries.len(),
    ensures
        j < summary_by_task(entries).len() && summary_by_task(entries)[i].total_seconds
            == summary_by_task(entries)[j].total_seconds && entries[b].task_id == summary_by_task(
            entries,
        )[j].task_id ==> exists|a: int|
            0 <= a < b && (#[trigger] entries[a]).task_id == summary_by_task(entries)[i].task_id,
        j < summary_by_subtask(entries).len() && summary_by_subtask(entries)[i].total_seconds
            == summary_by_subtask(entries)[j].total_seconds && entries[b].subtask_id
            == summary_by_subtask(entries)[j].subtask_id ==> exists|a: int|
            0 <= a < b && (#[trigger] entries[a]).subtask_id == summary_by_subtask(
                entries,
            )[i].subtask_id,
        j < summary_by_task_and_subtask(entries).len() ==> {
            let first = summary_by_task_and_subtask(entries)[i];
            let second = summary_by_task_and_subtask(entries)[j];
            first.task_name == second.task_name && first.total_seconds == second.total_seconds
                && entries[b].task_id == second.task_id && entries[b].subtask_id
                == second.subtask_id ==> exists|a: int|
                0 <= a < b && (#[trigger] entries[a]).task_id == first.task_id
                    && entries[a].subtask_id == first.subtask_id
        },
{
    if j < summary_by_task_and_subtask(entries).len() {
        let first = summary_by_task_and_subtask(entries)[i];
        let second = summary_by_task_and_subtask(entries)[j];
        if first.task_name == second.task_name && first.total_seconds == second.total_seconds
            && entries[b].task_id == second.task_id && entries[b].subtask_id == second.subtask_id {
            by_name_and_time_can_sort();
            text_order_is_irreflexive(first.task_name);
            let r = sorting_is_stable(group_rows(entries, true), by_name_and_time(), i, j);
            let f = lemma_firsts_in_order(entries, same_task_and_subtask(), r.0, r.1);
            if b < f.1 {
                assert(!same_task_and_subtask()(entries[b], entries[f.1]));
            }
            assert(entries[f.0].task_id == first.task_id);
        }
    }
    if j < summary_by_task(entries).len() && summary_by_task(entries)[i].total_seconds
        == summary_by_task(entries)[j].total_seconds && entries[b].task_id == summary_by_task(
        entries,
    )[j].task_id {
        let r = sorting_is_stable(group_rows(entries, false), longest_first(), i, j);
        let f = lemma_firsts_in_order(entries, same_task(), r.0, r.1);
        if b < f.1 {
            assert(!same_task()(entries[b], entries[f.1]));
        }
        assert(entries[f.0].task_id == summary_by_task(entries)[i].task_id);
    }
    if j < summary_by_subtask(entries).len() && summary_by_subtask(entries)[i].total_seconds
        == summary_by_subtask(entries)[j].total_seconds && entries[b].subtask_id
        == summary_by_subtask(entries)[j].subtask_id {
        let r = sorting_is_stable(subtask_rows(entries), longest_subtask_first(), i, j);
        let f = lemma_firsts_in_order(entries, same_subtask(), r.0, r.1);
        if b < f.1 {
            assert(!same_subtask()(entries[b], entries[f.1]));
        }
        assert(entries[f.0].subtask_id == summary_by_subtask(entries)[i].subtask_id);
    }
}

/// A row by task is that of the entries of its task: their number and their time, and
/// the name and the links of the first of them.
pub proof fn a_row_by_task_is_that_of_its_entries(entries: Seq<TimeEntryViewModel>, k: int)
    requires
        none_negative(entries),
        rows_fit(entries, same_task()),
        0 <= k < summary_by_task(entries).len(),
    ensures
        ({
            let row = summary_by_task(entries)[k];
            let own = entries.filter(|entry: TimeEntryViewModel| entry.task_id == row.task_id);
            &&& row.total_seconds == total_seconds(own)
            &&& row.entry_count == own.len()
            &&& row.subtask_id is None
            &&& row.subtask_name is None
            &&& exists|i: int|
                {
                    let first = #[trigger] entries[i];
                    &&& 0 <= i < entries.len()
                    &&& first.task_id == row.task_id
                    &&& row.task_name == first.task_name
                    &&& row.github_kind == first.github_kind
                    &&& row.github_reference == first.github_reference
                    &&& forall|j: int|
                        0 <= j < i ==> (#[trigger] entries[j]).task_id != row.task_id
                }
        }),
{
    let grouped = same_task();
    let rows = group_rows(entries, false);
    let row = summary_by_task(entries)[k];
    assert(is_grouping(grouped));
    sorted_items_were_there(rows, longest_first());
    assert(summary_by_task(entries).contains(row));
    let p = choose|p: int| 0 <= p < rows.len() && rows[p] == row;
    lemma_row_amounts(entries, false, p);
    let i = lemma_first_of_group(entries, grouped, p);
    assert(grouped_with(entries[i], grouped) =~= (|entry: TimeEntryViewModel|
        entry.task_id == row.task_id));
    assert(entries[i].task_id == row.task_id);
    assert forall|j: int| 0 <= j < i implies (#[trigger] entries[j]).task_id != row.task_id by {
        assert(!grouped(entries[j], entries[i]));
    }
}

/// A row by task and subtask is that of the entries of its task that have its
/// subtask: their number and their time, and the names and the links of the first of
/// them.
pub proof fn a_row_by_task_and_subtask_is_that_of_its_entries(
    entries: Seq<TimeEntryViewModel>,
    k: int,
)
    requires
        none_negative(entries),
        rows_fit(entries, same_task_and_subtask()),
        0 <= k < summary_by_task_and_subtask(entries).len(),
    ensures
        ({
            let row = summary_by_task_and_subtask(entries)[k];
            let own = entries.filter(
                |entry: TimeEntryViewModel|
                    entry.task_id == row.task_id && entry.subtask_id == row.subtask_id,
            );
            &&& row.total_seconds == total_seconds(own)
            &&& row.entry_count == own.len()
            &&& exists|i: int|
                {
                    let first = #[trigger] entries[i];
                    &&& 0 <= i < entries.len()
                    &&& first.task_id == row.task_id
                    &&& first.subtask_id == row.subtask_id
                    &&& row.task_name == first.task_name
                    &&& row.subtask_name == first.subtask_name
                    &&& row.github_kind == first.github_kind
                    &&& row.github_reference == first.github_reference
                    &&& forall|j: int|
                        0 <= j < i ==> (#[trigger] entries[j]).task_id != row.task_id
                            || entries[j].subtask_id != row.subtask_id
                }
        }),
{
    let grouped = same_task_and_subtask();
    let rows = group_rows(entries, true);
    let row = summary_by_task_and_subtask(entries)[k];
    assert(is_grouping(grouped));
    by_name_and_time_can_sort();
    sorted_items_were_there(rows, by_name_and_time());
    assert(summary_by_task_and_subtask(entries).contains(row));
    let p = choose|p: int| 0 <= p < rows.len() && rows[p] == row;
    lemma_row_amounts(entries, true, p);
    let i = lemma_first_of_group(entries, grouped, p);
    assert(grouped_with(entries[i], grouped) =~= (|entry: TimeEntryViewModel|
        entry.task_id == row.task_id && entry.subtask_id == row.subtask_id));
    assert(entries[i].task_id == row.task_id);
    assert forall|j: int| 0 <= j < i implies (#[trigger] entries[j]).task_id != row.task_id
        || entries[j].subtask_id != row.subtask_id by {
        assert(!grouped(entries[j], entries[i]));
    }
}

/// Every entry has its row by task and subtask.
pub proof fn every_entry_has_its_pair_row(entries: Seq<TimeEntryViewModel>, i: int)
    requires
        0 <= i < entries.len(),
    ensures
        exists|k: int|
            0 <= k < summary_by_task_and_subtask(entries).len() && (
            #[trigger] summary_by_task_and_subtask(entries)[k]).task_id == entries[i].task_id
                && summary_by_task_and_subtask(entries)[k].subtask_id == entries[i].subtask_id,
{
    let grouped = same_task_and_subtask();
    let starts = firsts(entries, grouped);
    let rows = group_rows(entries, true);
    let sorted = summary_by_task_and_subtask(entries);
    by_name_and_time_can_sort();
    firsts_stand_for_their_groups(entries, grouped);
    let j = choose|j: int| 0 <= j < starts.len() && grouped(#[trigger] starts[j], entries[i]);
    sorted_items_were_there(rows, by_name_and_time());
    assert(rows.contains(rows[j]));
    assert(sorted.contains(rows[j]));
    let k = choose|k: int| 0 <= k < sorted.len() && sorted[k] == rows[j];
    assert(sorted[k].task_id == entries[i].task_id);
}

/// Whether numbers are the tasks of some entries, each once.
pub open spec fn are_tasks_of(ids: Seq<i64>, entries: Seq<TimeEntryViewModel>) -> bool {
    &&& forall|a: int, b: int|
        0 <= a < b < ids.len() ==> #[trigger] ids[a] != #[trigger] ids[b]
    &&& forall|id: i64| #[trigger]
        ids.contains(id) <==> exists|i: int|
            0 <= i < entries.len() && (#[trigger] entries[i]).task_id == id
}

/// The different tasks of entries.
proof fn lemma_tasks_counted(own: Seq<TimeEntryViewModel>) -> (ids: Seq<i64>)
    ensures
        are_tasks_of(ids, own),
        ids.len() == firsts(own, same_task()).len(),
        ids.len() <= own.len(),
{
    lemma_firsts_are_fewer(own, same_task());
    let starts = firsts(own, same_task());
    let ids = starts.map_values(|entry: TimeEntryViewModel| entry.task_id);
    assert(is_grouping(same_task()));
    firsts_stand_for_their_groups(own, same_task());
    firsts_were_there(own, same_task());
    assert forall|a: int, b: int| 0 <= a < b < ids.len() implies #[trigger] ids[a]
        != #[trigger] ids[b] by {
        assert(!same_task()(starts[a], starts[b]));
    }
    assert forall|id: i64| #[trigger] ids.contains(id) <==> exists|j: int|
        0 <= j < own.len() && (#[trigger] own[j]).task_id == id by {
        if ids.contains(id) {
            let a = choose|a: int| 0 <= a < ids.len() && ids[a] == id;
            assert(own.contains(starts[a]));
            let j = choose|j: int| 0 <= j < own.len() && own[j] == starts[a];
            assert(own[j].task_id == id);
        }
        if exists|j: int| 0 <= j < own.len() && (#[trigger] own[j]).task_id == id {
            let j = choose|j: int| 0 <= j < own.len() && (#[trigger] own[j]).task_id == id;
            let a = choose|a: int|
                0 <= a < starts.len() && same_task()(#[trigger] starts[a], own[j]);
            assert(ids[a] == id);
        }
    }
    ids
}

/// A row by subtask is that of the entries that have its subtask, or of all without
/// one: their number and their time, the number of different tasks among them, and
/// the subtask's name in the first of them.
pub proof fn a_row_by_subtask_is_that_of_its_entries(entries: Seq<TimeEntryViewModel>, k: int)
    requires
        none_negative(entries),
        rows_fit(entries, same_subtask()),
        0 <= k < summary_by_subtask(entries).len(),
    ensures
        ({
            let row = summary_by_subtask(entries)[k];
            let own = entries.filter(
                |entry: TimeEntryViewModel| entry.subtask_id == row.subtask_id,
            );
            &&& row.total_seconds == total_seconds(own)
            &&& row.entry_count == own.len()
            &&& exists|ids: Seq<i64>| #[trigger]
                are_tasks_of(ids, own) && row.task_count == ids.len()
            &&& exists|i: int|
                {
                    let first = #[trigger] entries[i];
                    &&& 0 <= i < entries.len()
                    &&& first.subtask_id == row.subtask_id
                    &&& row.subtask_name == first.subtask_name
                    &&& forall|j: int|
                        0 <= j < i ==> (#[trigger] entries[j]).subtask_id != row.subtask_id
                }
        }),
{
    let grouped = same_subtask();
    let rows = subtask_rows(entries);
    let row = summary_by_subtask(entries)[k];
    let test = |entry: TimeEntryViewModel| entry.subtask_id == row.subtask_id;
    let own = entries.filter(test);
    assert(is_grouping(grouped));
    sorted_items_were_there(rows, longest_subtask_first());
    assert(summary_by_subtask(entries).contains(row));
    let p = choose|p: int| 0 <= p < rows.len() && rows[p] == row;
    let i = lemma_first_of_group(entries, grouped, p);
    let first = firsts(entries, grouped)[p];
    assert(grouped_with(first, grouped) =~= test);
    assert(can_hold(group_of(entries, firsts(entries, grouped)[p], grouped)));
    lemma_part_of_total(entries, test);
    let ids = lemma_tasks_counted(own);
    assert(are_tasks_of(ids, own));
    assert(entries[i].subtask_id == row.subtask_id);
    assert forall|j: int| 0 <= j < i implies (#[trigger] entries[j]).subtask_id
        != row.subtask_id by {
        assert(!grouped(entries[j], entries[i]));
    }
}

/// A summary of the tables is that of the report's entries. It fails where the report
/// does, and where the time or the number of the entries of one row is too large.
pub proof fn summaries_are_those_of_the_report(
    m: StoreModel,
    range: Option<ReportRange>,
    now: Timestamp,
)
    ensures
        match m.report_entries(range, now) {
            Err(error) => {
                &&& m.summary_by_task(range, now) == Err::<Seq<SummaryModel>, TrackerError>(error)
                &&& m.summary_by_task_and_subtask(range, now) == Err::<
                    Seq<SummaryModel>,
                    TrackerError,
                >(error)
                &&& m.summary_by_subtask(range, now) == Err::<
                    Seq<SubtaskSummaryModel>,
                    TrackerError,
                >(error)
            },
            Ok(entries) => {
                &&& match m.summary_by_task(range, now) {
                    Ok(rows) => rows == summary_by_task(entries),
                    Err(error) => error is TotalOutOfRange && exists|i: int|
                        0 <= i < entries.len() && is_too_much(
                            entries.filter(
                                |e: TimeEntryViewModel|
                                    e.task_id == (#[trigger] entries[i]).task_id,
                            ),
                        ),
                }
                &&& match m.summary_by_task_and_subtask(range, now) {
                    Ok(rows) => rows == summary_by_task_and_subtask(entries),
                    Err(error) => error is TotalOutOfRange && exists|i: int|
                        0 <= i < entries.len() && is_too_much(
                            entries.filter(
                                |e: TimeEntryViewModel|
                                    e.task_id == (#[trigger] entries[i]).task_id && e.subtask_id
                                        == entries[i].subtask_id,
                            ),
                        ),
                }
                &&& match m.summary_by_subtask(range, now) {
                    Ok(rows) => rows == summary_by_subtask(entries),
                    Err(error) => error is TotalOutOfRange && exists|i: int|
                        0 <= i < entries.len() && is_too_much(
                            entries.filter(
                                |e: TimeEntryViewModel|
                                    e.subtask_id == (#[trigger] entries[i]).subtask_id,
                            ),
                        ),
                }
            },
        },
{
    if let Ok(entries) = m.report_entries(range, now) {
        if m.summary_by_task(range, now) is Err {
            let i = lemma_unfit_group(entries, same_task());
            let test = |e: TimeEntryViewModel| e.task_id == entries[i].task_id;
            assert(grouped_with(entries[i], same_task()) =~= test);
            assert(is_too_much(entries.filter(test)));
        }
        if m.summary_by_task_and_subtask(range, now) is Err {
            let i = lemma_unfit_group(entries, same_task_and_subtask());
            let test = |e: TimeEntryViewModel|
                e.task_id == entries[i].task_id && e.subtask_id == entries[i].subtask_id;
            assert(grouped_with(entries[i], same_task_and_subtask()) =~= test);
            assert(is_too_much(entries.filter(test)));
        }
        if m.summary_by_subtask(range, now) is Err {
            let i = lemma_unfit_group(entries, same_subtask());
            let test = |e: TimeEntryViewModel| e.subtask_id == entries[i].subtask_id;
            assert(grouped_with(entries[i], same_subtask()) =~= test);
            assert(is_too_much(entries.filter(test)));
        }
    }
}

/// Where a summary is given, the time and the number of the entries of every row can
/// be held.
pub proof fn given_summaries_can_be_held(
    m: StoreModel,
    range: Option<ReportRange>,
    now: Timestamp,
    i: int,
)
    requires
        m.report_entries(range, now) is Ok,
        0 <= i < m.report_entries(range, now)->Ok_0.len(),
    ensures
        ({
            let entries = m.report_entries(range, now)->Ok_0;
            let of_task = entries.filter(
                |e: TimeEntryViewModel| e.task_id == entries[i].task_id,
            );
            let of_pair = entries.filter(
                |e: TimeEntryViewModel|
                    e.task_id == entries[i].task_id && e.subtask_id == entries[i].subtask_id,
            );
            let of_subtask = entries.filter(
                |e: TimeEntryViewModel| e.subtask_id == entries[i].subtask_id,
            );
            &&& m.summary_by_task(range, now) is Ok ==> !is_too_much(of_task)
            &&& m.summary_by_task_and_subtask(range, now) is Ok ==> !is_too_much(of_pair)
            &&& m.summary_by_subtask(range, now) is Ok ==> !is_too_much(of_subtask)
        }),
{
    let entries = m.report_entries(range, now)->Ok_0;
    let entry = entries[i];
    assert(grouped_with(entry, same_task()) =~= (|e: TimeEntryViewModel|
        e.task_id == entry.task_id));
    assert(grouped_with(entry, same_task_and_subtask()) =~= (|e: TimeEntryViewModel|
        e.task_id == entry.task_id && e.subtask_id == entry.subtask_id));
    assert(grouped_with(entry, same_subtask()) =~= (|e: TimeEntryViewModel|
        e.subtask_id == entry.subtask_id));
    if m.summary_by_task(range, now) is Ok {
        lemma_fit_group(entries, same_task(), i);
    }
    if m.summary_by_task_and_subtask(range, now) is Ok {
        lemma_fit_group(entries, same_task_and_subtask(), i);
    }
    if m.summary_by_subtask(range, now) is Ok {
        lemma_fit_group(entries, same_subtask(), i);
    }
}

/// Where groups fit, the group of every entry does.
proof fn lemma_fit_group(
    entries: Seq<TimeEntryViewModel>,
    grouped: spec_fn(TimeEntryViewModel, TimeEntryViewModel) -> bool,
    i: int,
)
    requires
        is_grouping(grouped),
        rows_fit(entries, grouped),
        0 <= i < entries.len(),
    ensures
        !is_too_much(entries.filter(grouped_with(entries[i], grouped))),
{
    let starts = firsts(entries, grouped);
    firsts_stand_for_their_groups(entries, grouped);
    let k = choose|k: int| 0 <= k < starts.len() && grouped(#[trigger] starts[k], entries[i]);
    assert(grouped_with(starts[k], grouped) =~= grouped_with(entries[i], grouped)) by {
        assert forall|e: TimeEntryViewModel| #[trigger] grouped(starts[k], e) == grouped(
            entries[i],
            e,
        ) by {
            assert(grouped(entries[i], starts[k]));
        }
    }
    assert(can_hold(group_of(entries, firsts(entries, grouped)[k], grouped)));
}

/// Whether the time or the number of entries is too large to be held.
pub open spec fn is_too_much(entries: Seq<TimeEntryViewModel>) -> bool {
    total_seconds(entries) > i64::MAX || entries.len() > i64::MAX
}

/// Where groups do not fit, the group of some entry does not.
proof fn lemma_unfit_group(
    entries: Seq<TimeEntryViewModel>,
    grouped: spec_fn(TimeEntryViewModel, TimeEntryViewModel) -> bool,
) -> (i: int)
    requires
        is_grouping(grouped),
        !rows_fit(entries, grouped),
    ensures
        0 <= i < entries.len(),
        is_too_much(entries.filter(grouped_with(entries[i], grouped))),
{
    let k = choose|k: int|
        0 <= k < firsts(entries, grouped).len() && !can_hold(
            group_of(entries, #[trigger] firsts(entries, grouped)[k], grouped),
        );
    lemma_first_of_group(entries, grouped, k)
}

} // verus!
