//! What holds of reports and summaries over any entries.

use vstd::prelude::*;
use crate::clock::{
    at_least_zero, entry_seconds_in, later, sooner, utc_text, ReportRange, Timestamp,
};
use crate::entries::{newest, newest_are_recorded, newest_first, newest_first_can_sort};
use crate::error::TimeFault;
use crate::lists::{
    filtered_items_were_there, filtering_follows_changes, filters_agree, firsts, firsts_come_first,
    firsts_keep_order, firsts_stand_for_their_groups, is_grouping, is_sorted, lemma_filter_push,
    lemma_sum_update, marks_differ, passing_items_are_kept, position_is_the_first,
    sorted_items_were_there, sorting_keeps_marks_apart, sorting_keeps_sums,
    sorting_orders_the_same_items, sum_of, sum_of_passing,
};
use crate::records::{
    SubtaskRowModel, SubtaskSummaryModel, SummaryModel, TimeEntryModel, TimeEntryViewModel,
};
use crate::reports::{is_unreadable, lasts_in, reaches_into, REPORT_LIMIT};
use crate::store::{positions_find_subtasks, StoreModel};
use crate::subtask_laws::{lemma_usage_is_a_sum, one_for, seconds_for};
use crate::subtasks::of_subtask;
use crate::summaries::{
    by_name_and_time, by_name_and_time_can_sort, can_hold, group_of, group_rows, grouped_with,
    lemma_groups_grow, lemma_part_of_total, lemma_total_push, longest_first, longest_subtask_first,
    none_negative, rows_fit, same_subtask, same_task, same_task_and_subtask, subtask_rows,
    summary_by_subtask, summary_by_task, summary_by_task_and_subtask, task_grouping, total_seconds,
};
use crate::tasks::{shares_subtask, uses_subtask};
use crate::text::text_before;
use crate::timers::lemma_picked_are_recorded;
use crate::written_time::written_instants_read_back;

verus! {

// ---------------------------------------------------------------------------
// Summaries lose nothing
// ---------------------------------------------------------------------------

/// The time of each group of entries that passes a test.
pub open spec fn group_totals(
    entries: Seq<TimeEntryViewModel>,
    grouped: spec_fn(TimeEntryViewModel, TimeEntryViewModel) -> bool,
    test: spec_fn(TimeEntryViewModel) -> bool,
) -> Seq<int> {
    firsts(entries, grouped).map_values(
        |first: TimeEntryViewModel|
            if test(first) {
                total_seconds(group_of(entries, first, grouped))
            } else {
                0
            },
    )
}

/// The size of each group of entries that passes a test.
pub open spec fn group_counts(
    entries: Seq<TimeEntryViewModel>,
    grouped: spec_fn(TimeEntryViewModel, TimeEntryViewModel) -> bool,
    test: spec_fn(TimeEntryViewModel) -> bool,
) -> Seq<int> {
    firsts(entries, grouped).map_values(
        |first: TimeEntryViewModel|
            if test(first) {
                group_of(entries, first, grouped).len() as int
            } else {
                0
            },
    )
}

/// Any entry.
pub open spec fn any_entry() -> spec_fn(TimeEntryViewModel) -> bool {
    |entry: TimeEntryViewModel| true
}

/// Any entry passes.
proof fn lemma_all_pass(entries: Seq<TimeEntryViewModel>)
    ensures
        entries.filter(any_entry()) == entries,
    decreases entries.len(),
{
    reveal(Seq::filter);
    if entries.len() > 0 {
        lemma_all_pass(entries.drop_last());
        assert(entries.drop_last().push(entries.last()) == entries);
    }
}

/// A number as it is.
pub open spec fn plain() -> spec_fn(int) -> int {
    |n: int| n
}

/// Where a test tells whole groups apart, the groups of entries that pass it add up
/// to the entries that do, in time and in number.
pub proof fn groups_add_up(
    entries: Seq<TimeEntryViewModel>,
    grouped: spec_fn(TimeEntryViewModel, TimeEntryViewModel) -> bool,
    test: spec_fn(TimeEntryViewModel) -> bool,
)
    requires
        is_grouping(grouped),
        forall|a: TimeEntryViewModel, b: TimeEntryViewModel| #[trigger]
            grouped(a, b) ==> test(a) == test(b),
    ensures
        sum_of(group_totals(entries, grouped, test), plain()) == total_seconds(
            entries.filter(test),
        ),
        sum_of(group_counts(entries, grouped, test), plain()) == entries.filter(test).len(),
    decreases entries.len(),
{
    if entries.len() > 0 {
        let rest = entries.drop_last();
        let item = entries.last();
        let starts = firsts(rest, grouped);
        let passing = rest.filter(test);
        groups_add_up(rest, grouped, test);
        assert(entries == rest.push(item));
        lemma_filter_push(rest, item, test);
        lemma_total_push(passing, item);
        let totals = group_totals(rest, grouped, test);
        let counts = group_counts(rest, grouped, test);
        if exists|k: int| 0 <= k < starts.len() && grouped(#[trigger] starts[k], item) {
            let k = choose|k: int| 0 <= k < starts.len() && grouped(#[trigger] starts[k], item);
            lemma_groups_grow(rest, item, grouped, k);
            let group = group_of(rest, starts[k], grouped);
            lemma_total_push(group, item);
            let total = if test(item) {
                total_seconds(group) + item.duration_seconds
            } else {
                0
            };
            let count = if test(item) {
                group.len() as int + 1
            } else {
                0
            };
            assert(group_totals(entries, grouped, test) == totals.update(k, total));
            assert(group_counts(entries, grouped, test) == counts.update(k, count));
            lemma_sum_update(totals, k, total, plain());
            lemma_sum_update(counts, k, count, plain());
        } else {
            lemma_groups_grow(rest, item, grouped, starts.len() as int);
            lemma_total_push(Seq::empty(), item);
            assert(Seq::<TimeEntryViewModel>::empty().push(item) == seq![item]);
            let total = if test(item) {
                item.duration_seconds as int
            } else {
                0
            };
            let count = if test(item) {
                1int
            } else {
                0
            };
            assert(group_totals(entries, grouped, test) == totals.push(total));
            assert(group_counts(entries, grouped, test) == counts.push(count));
            assert(totals.push(total).drop_last() == totals);
            assert(counts.push(count).drop_last() == counts);
        }
    } else {
        reveal(Seq::filter);
    }
}

/// Rows that hold the totals of groups add up to them.
proof fn lemma_sum_of_amounts<T>(rows: Seq<T>, amount: spec_fn(T) -> int, amounts: Seq<int>)
    requires
        rows.len() == amounts.len(),
        forall|i: int| 0 <= i < rows.len() ==> amount(#[trigger] rows[i]) == amounts[i],
    ensures
        sum_of(rows, amount) == sum_of(amounts, plain()),
    decreases rows.len(),
{
    if rows.len() > 0 {
        let n = rows.len() - 1;
        assert(amount(rows[n]) == amounts[n]);
        assert forall|i: int| 0 <= i < n implies amount(#[trigger] rows.drop_last()[i])
            == amounts.drop_last()[i] by {
            assert(rows.drop_last()[i] == rows[i]);
        }
        lemma_sum_of_amounts(rows.drop_last(), amount, amounts.drop_last());
    }
}

/// The time of a row.
pub open spec fn row_seconds() -> spec_fn(SummaryModel) -> int {
    |row: SummaryModel| row.total_seconds as int
}

/// The number of entries of a row.
pub open spec fn row_count() -> spec_fn(SummaryModel) -> int {
    |row: SummaryModel| row.entry_count as int
}

/// The time of a subtask's row.
pub open spec fn subtask_row_seconds() -> spec_fn(SubtaskSummaryModel) -> int {
    |row: SubtaskSummaryModel| row.total_seconds as int
}

/// The number of entries of a subtask's row.
pub open spec fn subtask_row_count() -> spec_fn(SubtaskSummaryModel) -> int {
    |row: SubtaskSummaryModel| row.entry_count as int
}

/// What each row of a group amounts to.
pub proof fn lemma_row_amounts(entries: Seq<TimeEntryViewModel>, by_subtask: bool, k: int)
    requires
        none_negative(entries),
        rows_fit(entries, task_grouping(by_subtask)),
        0 <= k < group_rows(entries, by_subtask).len(),
    ensures
        ({
            let grouped = task_grouping(by_subtask);
            let first = firsts(entries, grouped)[k];
            let row = group_rows(entries, by_subtask)[k];
            &&& row.task_id == first.task_id
            &&& row.total_seconds == total_seconds(group_of(entries, first, grouped))
            &&& row.entry_count == group_of(entries, first, grouped).len()
        }),
{
    let grouped = task_grouping(by_subtask);
    lemma_part_of_total(entries, grouped_with(firsts(entries, grouped)[k], grouped));
    assert(can_hold(group_of(entries, firsts(entries, grouped)[k], grouped)));
}

proof fn lemma_group_rows_add_up(entries: Seq<TimeEntryViewModel>, by_subtask: bool)
    requires
        none_negative(entries),
        rows_fit(entries, task_grouping(by_subtask)),
    ensures
        sum_of(group_rows(entries, by_subtask), row_seconds()) == total_seconds(entries),
        sum_of(group_rows(entries, by_subtask), row_count()) == entries.len(),
{
    let grouped = task_grouping(by_subtask);
    let rows = group_rows(entries, by_subtask);
    let totals = group_totals(entries, grouped, any_entry());
    let counts = group_counts(entries, grouped, any_entry());
    assert(is_grouping(grouped));
    groups_add_up(entries, grouped, any_entry());
    lemma_all_pass(entries);
    assert forall|i: int| 0 <= i < rows.len() implies row_seconds()(#[trigger] rows[i])
        == totals[i] && row_count()(rows[i]) == counts[i] by {
        lemma_row_amounts(entries, by_subtask, i);
    }
    lemma_sum_of_amounts(rows, row_seconds(), totals);
    lemma_sum_of_amounts(rows, row_count(), counts);
}

/// A summary by task holds all the time and all the entries it was made of, each
/// once.
pub proof fn time_by_task_adds_up(entries: Seq<TimeEntryViewModel>)
    requires
        none_negative(entries),
        rows_fit(entries, same_task()),
    ensures
        sum_of(summary_by_task(entries), row_seconds()) == total_seconds(entries),
        sum_of(summary_by_task(entries), row_count()) == entries.len(),
{
    let rows = group_rows(entries, false);
    lemma_group_rows_add_up(entries, false);
    sorting_keeps_sums(rows, longest_first(), row_seconds());
    sorting_keeps_sums(rows, longest_first(), row_count());
}

/// A summary by task and subtask holds all the time and all the entries it was
/// made of, each once.
pub proof fn time_by_task_and_subtask_adds_up(entries: Seq<TimeEntryViewModel>)
    requires
        none_negative(entries),
        rows_fit(entries, same_task_and_subtask()),
    ensures
        sum_of(summary_by_task_and_subtask(entries), row_seconds()) == total_seconds(entries),
        sum_of(summary_by_task_and_subtask(entries), row_count()) == entries.len(),
{
    let rows = group_rows(entries, true);
    lemma_group_rows_add_up(entries, true);
    sorting_keeps_sums(rows, by_name_and_time(), row_seconds());
    sorting_keeps_sums(rows, by_name_and_time(), row_count());
}

/// A summary by subtask holds all the time and all the entries it was made of,
/// each once.
pub proof fn time_by_subtask_adds_up(entries: Seq<TimeEntryViewModel>)
    requires
        none_negative(entries),
        rows_fit(entries, same_subtask()),
    ensures
        sum_of(summary_by_subtask(entries), subtask_row_seconds()) == total_seconds(entries),
        sum_of(summary_by_subtask(entries), subtask_row_count()) == entries.len(),
{
    let grouped = same_subtask();
    let rows = subtask_rows(entries);
    let starts = firsts(entries, grouped);
    let totals = group_totals(entries, grouped, any_entry());
    let counts = group_counts(entries, grouped, any_entry());
    assert(is_grouping(grouped));
    groups_add_up(entries, grouped, any_entry());
    lemma_all_pass(entries);
    assert forall|i: int| 0 <= i < rows.len() implies subtask_row_seconds()(#[trigger] rows[i])
        == totals[i] && subtask_row_count()(rows[i]) == counts[i] by {
        lemma_part_of_total(entries, grouped_with(starts[i], grouped));
        assert(can_hold(group_of(entries, firsts(entries, grouped)[i], grouped)));
    }
    lemma_sum_of_amounts(rows, subtask_row_seconds(), totals);
    lemma_sum_of_amounts(rows, subtask_row_count(), counts);
    sorting_keeps_sums(rows, longest_subtask_first(), subtask_row_seconds());
    sorting_keeps_sums(rows, longest_subtask_first(), subtask_row_count());
}

/// Whether a row is one of a task.
pub open spec fn is_row_of(task_id: i64) -> spec_fn(SummaryModel) -> bool {
    |row: SummaryModel| row.task_id == task_id
}

/// A task's time and number of entries in the summary by task are those of its rows
/// in the summary by task and subtask together.
pub proof fn task_time_is_that_of_its_subtasks(entries: Seq<TimeEntryViewModel>, k: int)
    requires
        none_negative(entries),
        rows_fit(entries, same_task()),
        rows_fit(entries, same_task_and_subtask()),
        0 <= k < summary_by_task(entries).len(),
    ensures
        ({
            let row = summary_by_task(entries)[k];
            let parts = summary_by_task_and_subtask(entries).filter(is_row_of(row.task_id));
            &&& sum_of(parts, row_seconds()) == row.total_seconds
            &&& sum_of(parts, row_count()) == row.entry_count
        }),
{
    let coarse = same_task();
    let fine = same_task_and_subtask();
    let row = summary_by_task(entries)[k];
    let id = row.task_id;
    let rows = group_rows(entries, false);
    sorted_items_were_there(rows, longest_first());
    assert(summary_by_task(entries).contains(row));
    let j = choose|j: int| 0 <= j < rows.len() && rows[j] == row;
    lemma_row_amounts(entries, false, j);
    let test = grouped_with(firsts(entries, coarse)[j], coarse);
    assert(is_grouping(fine));
    groups_add_up(entries, fine, test);

    let parts = group_rows(entries, true);
    let totals = group_totals(entries, fine, test);
    let counts = group_counts(entries, fine, test);
    let seconds_if = |part: SummaryModel|
        if part.task_id == id {
            part.total_seconds as int
        } else {
            0
        };
    let count_if = |part: SummaryModel|
        if part.task_id == id {
            part.entry_count as int
        } else {
            0
        };
    assert forall|i: int| 0 <= i < parts.len() implies seconds_if(#[trigger] parts[i]) == totals[i]
        && count_if(parts[i]) == counts[i] by {
        lemma_row_amounts(entries, true, i);
    }
    lemma_sum_of_amounts(parts, seconds_if, totals);
    lemma_sum_of_amounts(parts, count_if, counts);
    let sorted = summary_by_task_and_subtask(entries);
    sorting_keeps_sums(parts, by_name_and_time(), seconds_if);
    sorting_keeps_sums(parts, by_name_and_time(), count_if);
    sum_of_passing(sorted, is_row_of(id), row_seconds(), seconds_if);
    sum_of_passing(sorted, is_row_of(id), row_count(), count_if);
}

// ---------------------------------------------------------------------------
// Rows and their order
// ---------------------------------------------------------------------------

/// In every summary, rows stand in their order: by task and by subtask the most
/// time first, by task and subtask in the order of the tasks' names and under one
/// name the most time first.
pub proof fn summaries_are_in_order(entries: Seq<TimeEntryViewModel>)
    ensures
        is_sorted(summary_by_task(entries), longest_first()),
        is_sorted(summary_by_task_and_subtask(entries), by_name_and_time()),
        is_sorted(summary_by_subtask(entries), longest_subtask_first()),
{
    by_name_and_time_can_sort();
    sorting_orders_the_same_items(group_rows(entries, false), longest_first());
    sorting_orders_the_same_items(group_rows(entries, true), by_name_and_time());
    sorting_orders_the_same_items(subtask_rows(entries), longest_subtask_first());
}

/// The task of a row.
pub open spec fn row_task() -> spec_fn(SummaryModel) -> i64 {
    |row: SummaryModel| row.task_id
}

/// The task and the subtask of a row.
pub open spec fn row_task_and_subtask() -> spec_fn(SummaryModel) -> (i64, Option<i64>) {
    |row: SummaryModel| (row.task_id, row.subtask_id)
}

/// The subtask of a row.
pub open spec fn row_subtask() -> spec_fn(SubtaskSummaryModel) -> Option<i64> {
    |row: SubtaskSummaryModel| row.subtask_id
}

/// No summary has two rows for the same: by task there is one for each task, and
/// none names a subtask; by task and subtask there is one for each pair; by subtask
/// there is one for each subtask, and one for all entries without.
pub proof fn rows_are_told_apart(entries: Seq<TimeEntryViewModel>)
    ensures
        marks_differ(summary_by_task(entries), row_task()),
        forall|k: int|
            0 <= k < summary_by_task(entries).len() ==> (#[trigger] summary_by_task(
                entries,
            )[k]).subtask_id is None,
        marks_differ(summary_by_task_and_subtask(entries), row_task_and_subtask()),
        marks_differ(summary_by_subtask(entries), row_subtask()),
{
    let tasks = group_rows(entries, false);
    let pairs = group_rows(entries, true);
    let subtasks = subtask_rows(entries);
    firsts_stand_for_their_groups(entries, same_task());
    firsts_stand_for_their_groups(entries, same_task_and_subtask());
    firsts_stand_for_their_groups(entries, same_subtask());
    assert forall|i: int, j: int| 0 <= i < j < tasks.len() implies row_task()(#[trigger] tasks[i])
        != row_task()(#[trigger] tasks[j]) by {
        let starts = firsts(entries, same_task());
        assert(!same_task()(starts[i], starts[j]));
    }
    assert forall|i: int, j: int| 0 <= i < j < pairs.len() implies row_task_and_subtask()(
        #[trigger] pairs[i],
    ) != row_task_and_subtask()(#[trigger] pairs[j]) by {
        let starts = firsts(entries, same_task_and_subtask());
        assert(!same_task_and_subtask()(starts[i], starts[j]));
    }
    assert forall|i: int, j: int| 0 <= i < j < subtasks.len() implies row_subtask()(
        #[trigger] subtasks[i],
    ) != row_subtask()(#[trigger] subtasks[j]) by {
        let starts = firsts(entries, same_subtask());
        assert(!same_subtask()(starts[i], starts[j]));
    }
    by_name_and_time_can_sort();
    sorting_keeps_marks_apart(tasks, longest_first(), row_task());
    sorting_keeps_marks_apart(pairs, by_name_and_time(), row_task_and_subtask());
    sorting_keeps_marks_apart(subtasks, longest_subtask_first(), row_subtask());
    sorted_items_were_there(tasks, longest_first());
    let sorted = summary_by_task(entries);
    assert forall|k: int| 0 <= k < sorted.len() implies (
    #[trigger] sorted[k]).subtask_id is None by {
        assert(sorted.contains(sorted[k]));
        let j = choose|j: int| 0 <= j < tasks.len() && tasks[j] == sorted[k];
        assert(tasks[j].subtask_id is None);
    }
}

/// Every entry is counted in the row of its task.
pub proof fn every_entry_has_its_task_row(entries: Seq<TimeEntryViewModel>, i: int)
    requires
        0 <= i < entries.len(),
    ensures
        exists|k: int|
            0 <= k < summary_by_task(entries).len() && (#[trigger] summary_by_task(
                entries,
            )[k]).task_id == entries[i].task_id && summary_by_task(entries)[k].total_seconds
                == total_seconds(group_of(entries, entries[i], same_task())) as i64,
{
    let grouped = same_task();
    let starts = firsts(entries, grouped);
    let rows = group_rows(entries, false);
    let sorted = summary_by_task(entries);
    firsts_stand_for_their_groups(entries, grouped);
    let j = choose|j: int| 0 <= j < starts.len() && grouped(#[trigger] starts[j], entries[i]);
    assert(grouped_with(starts[j], grouped) =~= grouped_with(entries[i], grouped));
    sorted_items_were_there(rows, longest_first());
    assert(rows.contains(rows[j]));
    assert(sorted.contains(rows[j]));
    let k = choose|k: int| 0 <= k < sorted.len() && sorted[k] == rows[j];
    assert(sorted[k].task_id == entries[i].task_id);
}

/// Every entry is counted in the row of its subtask, across every task; those
/// without a subtask share one row.
pub proof fn every_entry_has_its_subtask_row(entries: Seq<TimeEntryViewModel>, i: int)
    requires
        0 <= i < entries.len(),
    ensures
        exists|k: int|
            0 <= k < summary_by_subtask(entries).len() && (#[trigger] summary_by_subtask(
                entries,
            )[k]).subtask_id == entries[i].subtask_id && summary_by_subtask(
                entries,
            )[k].total_seconds == total_seconds(
                group_of(entries, entries[i], same_subtask()),
            ) as i64,
{
    let grouped = same_subtask();
    let starts = firsts(entries, grouped);
    let rows = subtask_rows(entries);
    let sorted = summary_by_subtask(entries);
    firsts_stand_for_their_groups(entries, grouped);
    let j = choose|j: int| 0 <= j < starts.len() && grouped(#[trigger] starts[j], entries[i]);
    assert(grouped_with(starts[j], grouped) =~= grouped_with(entries[i], grouped));
    sorted_items_were_there(rows, longest_subtask_first());
    assert(rows.contains(rows[j]));
    assert(sorted.contains(rows[j]));
    let k = choose|k: int| 0 <= k < sorted.len() && sorted[k] == rows[j];
    assert(sorted[k].subtask_id == entries[i].subtask_id);
}

/// Whether a shown entry has a subtask.
pub open spec fn shown_with(id: i64) -> spec_fn(TimeEntryViewModel) -> bool {
    |entry: TimeEntryViewModel| entry.subtask_id == Some(id)
}

/// The entries of a subtask add up to the same, in time and in number, the newest
/// first or as they were recorded.
proof fn lemma_usage_in_any_order(m: StoreModel, id: i64, now: Timestamp)
    ensures
        ({
            let shown = newest(m.entries).map_values(m.shows(now));
            total_seconds(m.entries_of_subtask(id, now)) == total_seconds(
                shown.filter(shown_with(id)),
            ) && m.entries_of_subtask(id, now).len() == shown.filter(shown_with(id)).len()
        }),
{
    let shows = m.shows(now);
    assert forall|entry: TimeEntryModel| #[trigger] of_subtask(id)(entry) == shown_with(id)(
        shows(entry),
    ) by {}
    filtering_follows_changes(newest(m.entries), shows, of_subtask(id), shown_with(id));
    lemma_usage_is_a_sum(m, m.entries, id, now);
    lemma_usage_is_a_sum(m, newest(m.entries), id, now);
    sorting_keeps_sums(m.entries, newest_first(), seconds_for(id, now));
    sorting_keeps_sums(m.entries, newest_first(), one_for(id));
}

/// A subtask that entries use is listed with the time and the number of entries
/// that the summary by subtask gives it, where the summary covers every entry.
pub proof fn usage_is_what_the_summary_says(
    m: StoreModel,
    subtask: SubtaskRowModel,
    i: int,
    now: Timestamp,
)
    requires
        m.entries.len() <= REPORT_LIMIT,
        0 <= i < m.entries.len(),
        m.entries[i].subtask_id == Some(subtask.id),
    ensures
        ({
            let entries = m.recent_entries(REPORT_LIMIT, now);
            exists|k: int|
                0 <= k < summary_by_subtask(entries).len() && (#[trigger] summary_by_subtask(
                    entries,
                )[k]).subtask_id == Some(subtask.id) && summary_by_subtask(
                    entries,
                )[k].total_seconds == m.with_usage(now)(subtask).total_seconds
                    && summary_by_subtask(entries)[k].entry_count == m.with_usage(now)(
                    subtask,
                ).entry_count
        }),
{
    let entries = m.recent_entries(REPORT_LIMIT, now);
    let grouped = same_subtask();
    let starts = firsts(entries, grouped);
    let rows = subtask_rows(entries);
    let sorted = summary_by_subtask(entries);
    newest_first_can_sort();
    sorted_items_were_there(m.entries, newest_first());
    assert(newest(m.entries).contains(m.entries[i]));
    let p = choose|p: int| 0 <= p < newest(m.entries).len() && newest(m.entries)[p] == m.entries[i];
    assert(entries == newest(m.entries).map_values(m.shows(now)));
    firsts_stand_for_their_groups(entries, grouped);
    let j = choose|j: int| 0 <= j < starts.len() && grouped(#[trigger] starts[j], entries[p]);
    assert(grouped_with(starts[j], grouped) =~= shown_with(subtask.id));
    lemma_usage_in_any_order(m, subtask.id, now);
    sorted_items_were_there(rows, longest_subtask_first());
    assert(rows.contains(rows[j]));
    assert(sorted.contains(rows[j]));
    let k = choose|k: int| 0 <= k < sorted.len() && sorted[k] == rows[j];
    assert(sorted[k].subtask_id == Some(subtask.id));
}

// ---------------------------------------------------------------------------
// Recent entries
// ---------------------------------------------------------------------------

/// Recent entries are the newest ones, the newest first, and as many as were asked
/// for where there are so many. A negative limit is none: every entry is shown.
pub proof fn recent_entries_are_the_newest(
    m: StoreModel,
    limit: i64,
    no_limit: i64,
    now: Timestamp,
    k: int,
)
    requires
        no_limit < 0,
        0 <= k < m.entries.len(),
    ensures
        m.recent_entries(limit, now).len() == if 0 <= limit < m.entries.len() {
            limit as int
        } else {
            m.entries.len() as int
        },
        forall|i: int, j: int|
            0 <= i < j < m.recent_entries(limit, now).len() ==> !text_before(
                (#[trigger] m.recent_entries(limit, now)[i]).started_at,
                (#[trigger] m.recent_entries(limit, now)[j]).started_at,
            ),
        m.recent_entries(limit, now).is_prefix_of(m.recent_entries(no_limit, now)),
        m.recent_entries(no_limit, now).contains(m.entry_view(m.entries[k], now)),
{
    let sorted = newest(m.entries);
    let shown = m.recent_entries(limit, now);
    let all = m.recent_entries(no_limit, now);
    newest_first_can_sort();
    sorting_orders_the_same_items(m.entries, newest_first());
    sorted_items_were_there(m.entries, newest_first());
    assert forall|i: int, j: int| 0 <= i < j < shown.len() implies !text_before(
        (#[trigger] shown[i]).started_at,
        (#[trigger] shown[j]).started_at,
    ) by {
        assert(!newest_first()(sorted[j], sorted[i]));
    }
    assert(all.take(shown.len() as int) == shown);
    assert(m.entries.contains(m.entries[k]));
    assert(sorted.contains(m.entries[k]));
    let p = choose|p: int| 0 <= p < sorted.len() && sorted[p] == m.entries[k];
    assert(all[p] == m.entry_view(m.entries[k], now));
}

// ---------------------------------------------------------------------------
// Reports over finished entries
// ---------------------------------------------------------------------------

/// Whether no entry runs.
pub open spec fn all_finished(m: StoreModel) -> bool {
    forall|k: int| 0 <= k < m.entries.len() ==> (#[trigger] m.entries[k]).ended_at is Some
}

/// A report over finished entries does not depend on when it is made.
pub proof fn finished_reports_stand(
    m: StoreModel,
    range: Option<ReportRange>,
    now: Timestamp,
    later: Timestamp,
)
    requires
        all_finished(m),
    ensures
        m.report_entries(range, now) == m.report_entries(range, later),
{
    assert forall|entry: TimeEntryModel| entry.ended_at is Some implies #[trigger] m.entry_view(
        entry,
        now,
    ) == m.entry_view(entry, later) by {}
    match range {
        None => {
            let sorted = newest(m.entries);
            newest_are_recorded(m.entries);
            let kept = if REPORT_LIMIT < sorted.len() {
                sorted.take(REPORT_LIMIT as int)
            } else {
                sorted
            };
            assert forall|k: int| 0 <= k < kept.len() implies m.entry_view(#[trigger] kept[k], now)
                == m.entry_view(kept[k], later) by {
                assert(m.entries.contains(sorted[k]));
            }
            assert(kept.map_values(m.shows(now)) == kept.map_values(m.shows(later)));
        },
        Some(range) => {
            filters_agree(m.entries, reaches_into(range, now), reaches_into(range, later));
            let reached = newest(m.entries.filter(reaches_into(range, now)));
            lemma_picked_are_recorded(m.entries, reaches_into(range, now));
            assert forall|k: int| 0 <= k < reached.len() implies (
            #[trigger] reached[k]).ended_at is Some by {
                assert(m.entries.contains(reached[k]));
            }
            filters_agree(reached, is_unreadable(range, now), is_unreadable(range, later));
            filters_agree(reached, lasts_in(range, now), lasts_in(range, later));
            position_is_the_first(reached, is_unreadable(range, now));
            let lasting = reached.filter(lasts_in(range, now));
            filtered_items_were_there(reached, lasts_in(range, now));
            assert forall|k: int| 0 <= k < lasting.len() implies m.shows_in(range, now)(
                #[trigger] lasting[k],
            ) == m.shows_in(range, later)(lasting[k]) by {
                assert(reached.contains(lasting[k]));
            }
            assert(lasting.map_values(m.shows_in(range, now)) == lasting.map_values(
                m.shows_in(range, later),
            ));
        },
    }
}

/// No report shows a negative time.
pub proof fn reported_time_is_not_negative(
    m: StoreModel,
    range: Option<ReportRange>,
    now: Timestamp,
)
    requires
        m.report_entries(range, now) is Ok,
    ensures
        none_negative(m.report_entries(range, now)->Ok_0),
{
}

/// The three summaries of finished entries agree, whenever each is made: they hold
/// the same time and the same number of entries, and a task's row by task is what
/// its rows by task and subtask add up to.
pub proof fn summaries_of_finished_entries_agree(
    m: StoreModel,
    range: Option<ReportRange>,
    first: Timestamp,
    second: Timestamp,
    third: Timestamp,
    k: int,
)
    requires
        all_finished(m),
        m.summary_by_task(range, first) is Ok,
        m.summary_by_task_and_subtask(range, second) is Ok,
        m.summary_by_subtask(range, third) is Ok,
        0 <= k < m.summary_by_task(range, first)->Ok_0.len(),
    ensures
        ({
            let tasks = m.summary_by_task(range, first)->Ok_0;
            let pairs = m.summary_by_task_and_subtask(range, second)->Ok_0;
            let subtasks = m.summary_by_subtask(range, third)->Ok_0;
            let parts = pairs.filter(is_row_of(tasks[k].task_id));
            &&& sum_of(tasks, row_seconds()) == sum_of(pairs, row_seconds())
            &&& sum_of(tasks, row_seconds()) == sum_of(subtasks, subtask_row_seconds())
            &&& sum_of(tasks, row_count()) == sum_of(pairs, row_count())
            &&& sum_of(tasks, row_count()) == sum_of(subtasks, subtask_row_count())
            &&& sum_of(parts, row_seconds()) == tasks[k].total_seconds
            &&& sum_of(parts, row_count()) == tasks[k].entry_count
        }),
{
    finished_reports_stand(m, range, first, second);
    finished_reports_stand(m, range, first, third);
    reported_time_is_not_negative(m, range, first);
    let entries = m.report_entries(range, first)->Ok_0;
    time_by_task_adds_up(entries);
    time_by_task_and_subtask_adds_up(entries);
    time_by_subtask_adds_up(entries);
    task_time_is_that_of_its_subtasks(entries, k);
}

// ---------------------------------------------------------------------------
// Time in a range
// ---------------------------------------------------------------------------

/// The time of an entry that falls in a range: no more than the entry lasts, and
/// no more than the range does.
pub proof fn time_in_a_range_is_bounded(
    start: Timestamp,
    end: Timestamp,
    range: ReportRange,
    now: Timestamp,
)
    requires
        start.storable(),
        end.storable(),
        range.start.storable(),
        range.end.storable(),
    ensures
        entry_seconds_in(utc_text(start), Some(utc_text(end)), range, now) matches Ok(seconds) && 0
            <= seconds <= at_least_zero(end.secs - start.secs) && seconds <= at_least_zero(
            range.end.secs - range.start.secs,
        ),
{
    time_in_a_range_is_the_overlap(start, end, range, now);
}

/// The time of a written entry in a range of whole seconds runs from the later of the
/// two starts to the earlier of the two ends, and there is none where that end comes
/// first.
pub proof fn time_in_a_range_is_the_overlap(
    start: Timestamp,
    end: Timestamp,
    range: ReportRange,
    now: Timestamp,
)
    requires
        start.storable(),
        end.storable(),
        range.start.storable(),
        range.end.storable(),
    ensures
        entry_seconds_in(utc_text(start), Some(utc_text(end)), range, now) == Ok::<int, TimeFault>(
            ({
                let from = if start.secs < range.start.secs {
                    range.start.secs
                } else {
                    start.secs
                };
                let to = if end.secs < range.end.secs {
                    end.secs
                } else {
                    range.end.secs
                };
                if to < from {
                    0
                } else {
                    to - from
                }
            }),
        ),
{
    written_instants_read_back(start);
    written_instants_read_back(end);
    let from = later(start, range.start);
    let to = sooner(end, range.end);
    let n = to.secs - from.secs;
    assert(n >= 0 ==> (n * 1_000_000_000) / 1_000_000_000 == n);
    assert(n < 0 ==> ((-n) * 1_000_000_000) / 1_000_000_000 == -n);
}

/// The time of an entry in two ranges that adjoin is its time in the two together:
/// consecutive periods neither lose time nor count it twice.
pub proof fn adjoining_ranges_share_no_time(
    start: Timestamp,
    end: Timestamp,
    first: Timestamp,
    middle: Timestamp,
    last: Timestamp,
    now: Timestamp,
)
    requires
        start.storable(),
        end.storable(),
        first.storable(),
        middle.storable(),
        last.storable(),
        first.secs <= middle.secs <= last.secs,
    ensures
        ({
            let started_at = utc_text(start);
            let ended_at = Some(utc_text(end));
            let before = ReportRange { start: first, end: middle };
            let after = ReportRange { start: middle, end: last };
            let both = ReportRange { start: first, end: last };
            let a = entry_seconds_in(started_at, ended_at, before, now);
            let b = entry_seconds_in(started_at, ended_at, after, now);
            let c = entry_seconds_in(started_at, ended_at, both, now);
            a is Ok && b is Ok && c is Ok && a->Ok_0 + b->Ok_0 == c->Ok_0
        }),
{
    time_in_a_range_is_the_overlap(start, end, ReportRange { start: first, end: middle }, now);
    time_in_a_range_is_the_overlap(start, end, ReportRange { start: middle, end: last }, now);
    time_in_a_range_is_the_overlap(start, end, ReportRange { start: first, end: last }, now);
}

// ---------------------------------------------------------------------------
// The subtasks of a task
// ---------------------------------------------------------------------------

/// The newest uses of a task's subtasks, one each.
pub open spec fn latest_uses(m: StoreModel, task_id: i64) -> Seq<TimeEntryModel> {
    firsts(newest(m.entries.filter(uses_subtask(task_id))), shares_subtask())
}

/// The subtasks of a task are those its entries have, each once, and the one used
/// last comes first.
pub proof fn subtasks_of_a_task_are_those_used(m: StoreModel, task_id: i64, k: int)
    requires
        m.wf(),
        0 <= k < m.entries.len(),
        m.entries[k].task_id == task_id,
        m.entries[k].subtask_id is Some,
    ensures
        m.subtasks_for_task(task_id).len() == latest_uses(m, task_id).len(),
        is_sorted(latest_uses(m, task_id), newest_first()),
        exists|i: int|
            0 <= i < latest_uses(m, task_id).len() && (#[trigger] latest_uses(
                m,
                task_id,
            )[i]).subtask_id == m.entries[k].subtask_id && m.subtasks_for_task(task_id)[i].id
                == m.entries[k].subtask_id->Some_0 && !newest_first()(
                m.entries[k],
                latest_uses(m, task_id)[i],
            ),
        forall|i: int, j: int|
            0 <= i < j < latest_uses(m, task_id).len() ==> (#[trigger] latest_uses(
                m,
                task_id,
            )[i]).subtask_id != (#[trigger] latest_uses(m, task_id)[j]).subtask_id,
{
    let test = uses_subtask(task_id);
    let grouped = shares_subtask();
    let entry = m.entries[k];
    let kept = m.entries.filter(test);
    let sorted = newest(kept);
    let uses = latest_uses(m, task_id);
    assert(is_grouping(grouped));
    newest_first_can_sort();
    sorting_orders_the_same_items(kept, newest_first());
    sorted_items_were_there(kept, newest_first());
    firsts_keep_order(sorted, grouped, newest_first());
    firsts_stand_for_their_groups(sorted, grouped);
    passing_items_are_kept(m.entries, test, entry);
    assert(sorted.contains(entry));
    let p = choose|p: int| 0 <= p < sorted.len() && sorted[p] == entry;
    let i = choose|i: int| 0 <= i < uses.len() && grouped(#[trigger] uses[i], sorted[p]);
    firsts_come_first(sorted, grouped, newest_first(), i, p);
    assert(m.resolves(entry));
    positions_find_subtasks(m, entry.subtask_id->Some_0);
    assert(m.subtasks_for_task(task_id)[i].id == entry.subtask_id->Some_0);
    assert forall|a: int, b: int| 0 <= a < b < uses.len() implies (#[trigger] uses[a]).subtask_id
        != (#[trigger] uses[b]).subtask_id by {
        assert(!grouped(uses[a], uses[b]));
    }
}

} // verus!
