//! Time added up by task and by subtask.

use vstd::prelude::*;
use crate::clock::{utc_now, ReportRange, Timestamp, LONGEST_SPAN};
use crate::error::TrackerError;
use crate::lists::{
    can_sort, find_by, firsts, firsts_stand_for_their_groups, is_grouping, lemma_filter_push,
    lemma_firsts_are_fewer, models, models_of_push, models_of_update, nothing_passes,
    position_is_the_first, sort_by, stable_sorted,
};
use crate::records::{
    SubtaskSummaryModel, SubtaskSummaryRow, SummaryModel, SummaryRow, TimeEntryView,
    TimeEntryViewModel,
};
use crate::reports::{range_of, report_entries_inner_at, reported, REPORT_LIMIT};
use crate::store::{Store, StoreModel};
use crate::text::{
    is_before, same_text, text_before, text_order_is_irreflexive, text_order_is_total,
    text_order_is_transitive,
};

verus! {

// ---------------------------------------------------------------------------
// Totals
// ---------------------------------------------------------------------------

/// The time that entries add up to.
pub open spec fn total_seconds(entries: Seq<TimeEntryViewModel>) -> int
    decreases entries.len(),
{
    if entries.len() == 0 {
        0
    } else {
        total_seconds(entries.drop_last()) + entries.last().duration_seconds
    }
}

/// Whether no entry lasts a negative time.
pub open spec fn none_negative(entries: Seq<TimeEntryViewModel>) -> bool {
    forall|i: int| 0 <= i < entries.len() ==> 0 <= (#[trigger] entries[i]).duration_seconds
}

/// Whether the number of entries and the time they add up to can be held.
pub open spec fn can_hold(entries: Seq<TimeEntryViewModel>) -> bool {
    total_seconds(entries) <= i64::MAX && entries.len() <= i64::MAX
}

/// What one more entry adds.
pub proof fn lemma_total_push(entries: Seq<TimeEntryViewModel>, entry: TimeEntryViewModel)
    ensures
        total_seconds(entries.push(entry)) == total_seconds(entries) + entry.duration_seconds,
{
    assert(entries.push(entry).drop_last() == entries);
}

/// Some of the entries add up to no more than all of them.
pub proof fn lemma_part_of_total(
    entries: Seq<TimeEntryViewModel>,
    test: spec_fn(TimeEntryViewModel) -> bool,
)
    requires
        none_negative(entries),
    ensures
        0 <= total_seconds(entries.filter(test)) <= total_seconds(entries),
        entries.filter(test).len() <= entries.len(),
    decreases entries.len(),
{
    reveal(Seq::filter);
    if entries.len() > 0 {
        let rest = entries.drop_last();
        assert forall|i: int| 0 <= i < rest.len() implies 0 <= (
        #[trigger] rest[i]).duration_seconds by {
            assert(rest[i] == entries[i]);
        }
        lemma_part_of_total(rest, test);
        assert(entries.last() == entries[entries.len() - 1]);
        lemma_total_push(rest.filter(test), entries.last());
    }
}

// ---------------------------------------------------------------------------
// Groups
// ---------------------------------------------------------------------------

/// Entries of the same task.
pub open spec fn same_task() -> spec_fn(TimeEntryViewModel, TimeEntryViewModel) -> bool {
    |a: TimeEntryViewModel, b: TimeEntryViewModel| a.task_id == b.task_id
}

/// Entries of the same subtask, or without one.
pub open spec fn same_subtask() -> spec_fn(TimeEntryViewModel, TimeEntryViewModel) -> bool {
    |a: TimeEntryViewModel, b: TimeEntryViewModel| a.subtask_id == b.subtask_id
}

/// Entries of the same task and of the same subtask, or without one.
pub open spec fn same_task_and_subtask() -> spec_fn(
    TimeEntryViewModel,
    TimeEntryViewModel,
) -> bool {
    |a: TimeEntryViewModel, b: TimeEntryViewModel|
        a.task_id == b.task_id && a.subtask_id == b.subtask_id
}

/// What is grouped with an item.
pub open spec fn grouped_with<T>(item: T, grouped: spec_fn(T, T) -> bool) -> spec_fn(T) -> bool {
    |other: T| grouped(item, other)
}

/// The entries that are grouped with one.
pub open spec fn group_of<T>(s: Seq<T>, item: T, grouped: spec_fn(T, T) -> bool) -> Seq<T> {
    s.filter(grouped_with(item, grouped))
}

/// How groups grow with one more item: it joins the group it belongs to, or
/// starts one.
pub proof fn lemma_groups_grow<T>(s: Seq<T>, item: T, grouped: spec_fn(T, T) -> bool, k: int)
    requires
        is_grouping(grouped),
        0 <= k <= firsts(s, grouped).len(),
        k < firsts(s, grouped).len() ==> grouped(firsts(s, grouped)[k], item),
        k == firsts(s, grouped).len() ==> forall|j: int|
            0 <= j < k ==> !grouped(#[trigger] firsts(s, grouped)[j], item),
    ensures
        firsts(s.push(item), grouped) == if k < firsts(s, grouped).len() {
            firsts(s, grouped)
        } else {
            firsts(s, grouped).push(item)
        },
        forall|j: int|
            0 <= j < firsts(s, grouped).len() ==> group_of(
                s.push(item),
                #[trigger] firsts(s, grouped)[j],
                grouped,
            ) == if j == k {
                group_of(s, firsts(s, grouped)[j], grouped).push(item)
            } else {
                group_of(s, firsts(s, grouped)[j], grouped)
            },
        k == firsts(s, grouped).len() ==> group_of(s.push(item), item, grouped) == seq![item],
{
    let starts = firsts(s, grouped);
    assert(s.push(item).drop_last() == s);
    firsts_stand_for_their_groups(s, grouped);
    assert forall|j: int| 0 <= j < starts.len() implies group_of(
        s.push(item),
        #[trigger] starts[j],
        grouped,
    ) == if j == k {
        group_of(s, starts[j], grouped).push(item)
    } else {
        group_of(s, starts[j], grouped)
    } by {
        lemma_filter_push(s, item, grouped_with(starts[j], grouped));
        if j != k && k < starts.len() && grouped(starts[j], item) {
            assert(grouped(item, starts[k]));
            assert(grouped(starts[j], starts[k]));
            assert(grouped(starts[k], starts[j]));
        }
    }
    if k == starts.len() {
        let test = grouped_with(item, grouped);
        lemma_filter_push(s, item, test);
        assert forall|i: int| 0 <= i < s.len() implies !test(#[trigger] s[i]) by {
            let j = choose|j: int|
                0 <= j < starts.len() && grouped(#[trigger] starts[j], s[i]);
            if grouped(item, s[i]) {
                assert(grouped(s[i], item));
                assert(grouped(starts[j], item));
            }
        }
        nothing_passes(s, test);
        assert(group_of(s.push(item), item, grouped) == seq![item]);
    }
}

/// Whether the number and the time of every group of entries can be held.
pub open spec fn rows_fit(
    entries: Seq<TimeEntryViewModel>,
    grouped: spec_fn(TimeEntryViewModel, TimeEntryViewModel) -> bool,
) -> bool {
    forall|k: int|
        0 <= k < firsts(entries, grouped).len() ==> can_hold(
            group_of(entries, #[trigger] firsts(entries, grouped)[k], grouped),
        )
}

/// Rows, where the number and the time of every group of entries can be held.
pub open spec fn summed<R>(
    entries: Seq<TimeEntryViewModel>,
    grouped: spec_fn(TimeEntryViewModel, TimeEntryViewModel) -> bool,
    rows: Seq<R>,
) -> Result<Seq<R>, TrackerError> {
    if rows_fit(entries, grouped) {
        Ok(rows)
    } else {
        Err(TrackerError::TotalOutOfRange)
    }
}

/// Groups that fit did so all along: they only grow.
pub proof fn lemma_rows_fitted(
    entries: Seq<TimeEntryViewModel>,
    n: int,
    grouped: spec_fn(TimeEntryViewModel, TimeEntryViewModel) -> bool,
)
    requires
        none_negative(entries),
        rows_fit(entries, grouped),
        0 <= n <= entries.len(),
    ensures
        rows_fit(entries.take(n), grouped),
    decreases entries.len(),
{
    if n == entries.len() {
        assert(entries.take(n) == entries);
    } else {
        let rest = entries.drop_last();
        let starts = firsts(rest, grouped);
        assert forall|i: int| 0 <= i < rest.len() implies 0 <= (
        #[trigger] rest[i]).duration_seconds by {
            assert(rest[i] == entries[i]);
        }
        assert(entries == rest.push(entries.last()));
        assert forall|k: int| 0 <= k < starts.len() implies can_hold(
            group_of(rest, #[trigger] starts[k], grouped),
        ) by {
            assert(firsts(entries, grouped)[k] == starts[k]);
            assert(can_hold(group_of(entries, firsts(entries, grouped)[k], grouped)));
            lemma_filter_push(rest, entries.last(), grouped_with(starts[k], grouped));
            lemma_total_push(group_of(rest, starts[k], grouped), entries.last());
            assert(entries.last() == entries[entries.len() - 1]);
        }
        lemma_rows_fitted(rest, n, grouped);
        assert(rest.take(n) == entries.take(n));
    }
}

/// Groups that fit still do with one more entry, where the group that it joins
/// does.
proof fn lemma_rows_keep_fitting(
    entries: Seq<TimeEntryViewModel>,
    entry: TimeEntryViewModel,
    grouped: spec_fn(TimeEntryViewModel, TimeEntryViewModel) -> bool,
    k: int,
)
    requires
        is_grouping(grouped),
        rows_fit(entries, grouped),
        0 <= k <= firsts(entries, grouped).len(),
        k < firsts(entries, grouped).len() ==> grouped(firsts(entries, grouped)[k], entry)
            && can_hold(group_of(entries, firsts(entries, grouped)[k], grouped).push(entry)),
        k == firsts(entries, grouped).len() ==> forall|j: int|
            0 <= j < k ==> !grouped(#[trigger] firsts(entries, grouped)[j], entry),
    ensures
        rows_fit(entries.push(entry), grouped),
{
    let starts = firsts(entries, grouped);
    let after = entries.push(entry);
    lemma_groups_grow(entries, entry, grouped, k);
    assert forall|j: int| 0 <= j < firsts(after, grouped).len() implies can_hold(
        group_of(after, #[trigger] firsts(after, grouped)[j], grouped),
    ) by {
        if j < starts.len() {
            assert(firsts(after, grouped)[j] == starts[j]);
            assert(can_hold(group_of(entries, starts[j], grouped)));
        } else {
            lemma_total_push(Seq::empty(), entry);
            assert(Seq::<TimeEntryViewModel>::empty().push(entry) == seq![entry]);
        }
    }
}

// ---------------------------------------------------------------------------
// Rows of tasks
// ---------------------------------------------------------------------------

/// What a summary groups entries by: their task, or their task and their subtask.
pub open spec fn task_grouping(by_subtask: bool) -> spec_fn(
    TimeEntryViewModel,
    TimeEntryViewModel,
) -> bool {
    if by_subtask {
        same_task_and_subtask()
    } else {
        same_task()
    }
}

/// The row for a group of entries, named after the first of them.
pub open spec fn group_row(
    first: TimeEntryViewModel,
    group: Seq<TimeEntryViewModel>,
    by_subtask: bool,
) -> SummaryModel {
    SummaryModel {
        task_id: first.task_id,
        task_name: first.task_name,
        subtask_id: if by_subtask {
            first.subtask_id
        } else {
            None
        },
        subtask_name: if by_subtask {
            first.subtask_name
        } else {
            None
        },
        github_kind: first.github_kind,
        github_reference: first.github_reference,
        total_seconds: total_seconds(group) as i64,
        entry_count: group.len() as i64,
    }
}

/// The rows for the groups that entries form, in the order in which the groups
/// first occur.
pub open spec fn group_rows(entries: Seq<TimeEntryViewModel>, by_subtask: bool) -> Seq<
    SummaryModel,
> {
    let grouped = task_grouping(by_subtask);
    firsts(entries, grouped).map_values(
        |first: TimeEntryViewModel| group_row(first, group_of(entries, first, grouped), by_subtask),
    )
}

/// Rows with more time come first.
pub open spec fn longest_first() -> spec_fn(SummaryModel, SummaryModel) -> bool {
    |a: SummaryModel, b: SummaryModel| a.total_seconds > b.total_seconds
}

/// Rows come in the order of their task's names; under one name, those with more
/// time come first.
pub open spec fn by_name_and_time() -> spec_fn(SummaryModel, SummaryModel) -> bool {
    |a: SummaryModel, b: SummaryModel|
        text_before(a.task_name, b.task_name) || (a.task_name == b.task_name && a.total_seconds
            > b.total_seconds)
}

/// Time by task, the most first.
pub open spec fn summary_by_task(entries: Seq<TimeEntryViewModel>) -> Seq<SummaryModel> {
    stable_sorted(group_rows(entries, false), longest_first())
}

/// Time by task and subtask, in the order of the tasks' names.
pub open spec fn summary_by_task_and_subtask(entries: Seq<TimeEntryViewModel>) -> Seq<
    SummaryModel,
> {
    stable_sorted(group_rows(entries, true), by_name_and_time())
}

/// Adds entries up by task, or by task and subtask.
fn group_entries(
    entries: &Vec<TimeEntryView>,
    by_subtask: bool,
) -> (result: Result<Vec<SummaryRow>, TrackerError>)
    requires
        none_negative(models(entries@)),
    ensures
        reported(
            result,
            summed(
                models(entries@),
                task_grouping(by_subtask),
                group_rows(models(entries@), by_subtask),
            ),
        ),
{
    broadcast use {models_of_push, models_of_update};

    let ghost all = models(entries@);
    let ghost grouped = task_grouping(by_subtask);
    assert(is_grouping(grouped));
    let mut rows: Vec<SummaryRow> = Vec::new();
    assert(models(rows@) == group_rows(all.take(0), by_subtask));
    for i in 0..entries.len()
        invariant
            all == models(entries@),
            none_negative(all),
            rows_fit(all.take(i as int), grouped),
            grouped == task_grouping(by_subtask),
            is_grouping(grouped),
            models(rows@) == group_rows(all.take(i as int), by_subtask),
    {
        let entry = &entries[i];
        let ghost so_far = all.take(i as int);
        let ghost item = all[i as int];
        let ghost starts = firsts(so_far, grouped);
        let ghost before = models(rows@);
        let ghost test = |row: SummaryModel|
            row.task_id == item.task_id && (!by_subtask || row.subtask_id == item.subtask_id);
        let passes = |row: &SummaryRow| -> (answer: bool)
            ensures
                answer == (row@.task_id == item.task_id && (!by_subtask || row@.subtask_id
                    == item.subtask_id)),
        {
            row.task_id == entry.task_id && (!by_subtask || row.subtask_id == entry.subtask_id)
        };
        let found = find_by(&rows, passes, Ghost(test));
        proof {
            assert(entry@ == item);
            assert(all.take(i + 1) == so_far.push(item));
            position_is_the_first(before, test);
            assert forall|j: int| 0 <= j < starts.len() implies grouped(
                #[trigger] starts[j],
                item,
            ) == test(before[j]) by {}
            let k = match found {
                Some(k) => k as int,
                None => starts.len() as int,
            };
            assert forall|j: int| 0 <= j < starts.len() && found is None implies !grouped(
                #[trigger] starts[j],
                item,
            ) by {
                assert(!test(before[j]));
            }
            lemma_groups_grow(so_far, item, grouped, k);
            assert forall|j: int| 0 <= j < so_far.len() implies 0 <= (
            #[trigger] so_far[j]).duration_seconds by {
                assert(so_far[j] == all[j]);
            }
            if found is None {
                lemma_rows_keep_fitting(so_far, item, grouped, k);
            }
        }
        match found {
            Some(k) => {
                let ghost group = group_of(so_far, starts[k as int], grouped);
                let ghost row = before[k as int];
                proof {
                    assert(rows@[k as int]@ == row);
                    assert(row == group_row(starts[k as int], group, by_subtask));
                    lemma_total_push(group, item);
                    assert(group_of(so_far.push(item), starts[k as int], grouped) == group.push(
                        item,
                    ));
                    lemma_part_of_total(so_far, grouped_with(starts[k as int], grouped));
                    assert(can_hold(group_of(so_far, firsts(so_far, grouped)[k as int], grouped)));
                }
                if entry.duration_seconds > i64::MAX - rows[k].total_seconds || rows[k].entry_count
                    == i64::MAX {
                    proof {
                        assert(!can_hold(group.push(item)));
                        let after = all.take(i + 1);
                        assert(firsts(after, grouped)[k as int] == starts[k as int]);
                        assert(!can_hold(
                            group_of(after, firsts(after, grouped)[k as int], grouped),
                        ));
                        if rows_fit(all, grouped) {
                            lemma_rows_fitted(all, i + 1, grouped);
                        }
                    }
                    return Err(TrackerError::TotalOutOfRange);
                }
                proof {
                    lemma_rows_keep_fitting(so_far, item, grouped, k as int);
                }
                rows[k].total_seconds = rows[k].total_seconds + entry.duration_seconds;
                rows[k].entry_count = rows[k].entry_count + 1;
                assert(models(rows@)[k as int] == group_row(
                    starts[k as int],
                    group.push(item),
                    by_subtask,
                ));
                assert(models(rows@) == group_rows(all.take(i + 1), by_subtask));
            },
            None => {
                proof {
                    lemma_total_push(Seq::empty(), item);
                    assert(Seq::<TimeEntryViewModel>::empty().push(item) == seq![item]);
                }
                rows.push(
                    SummaryRow {
                        task_id: entry.task_id,
                        task_name: entry.task_name.clone(),
                        subtask_id: if by_subtask {
                            entry.subtask_id
                        } else {
                            None
                        },
                        subtask_name: if by_subtask {
                            entry.subtask_name.clone()
                        } else {
                            None
                        },
                        github_kind: entry.github_kind.clone(),
                        github_reference: entry.github_reference.clone(),
                        total_seconds: entry.duration_seconds,
                        entry_count: 1,
                    },
                );
                assert(models(rows@) == group_rows(all.take(i + 1), by_subtask));
            },
        }
    }
    assert(all.take(all.len() as int) == all);
    Ok(rows)
}

/// Adds entries up by task, the most time first.
pub fn summarize_by_task(
    entries: &Vec<TimeEntryView>,
) -> (result: Result<Vec<SummaryRow>, TrackerError>)
    requires
        none_negative(models(entries@)),
    ensures
        reported(
            result,
            summed(models(entries@), same_task(), summary_by_task(models(entries@))),
        ),
{
    let comes_before = |a: &SummaryRow, b: &SummaryRow| -> (answer: bool)
        ensures
            answer == longest_first()(a@, b@),
    {
        a.total_seconds > b.total_seconds
    };
    match group_entries(entries, false) {
        Ok(rows) => Ok(sort_by(rows, comes_before, Ghost(longest_first()))),
        Err(error) => Err(error),
    }
}

/// Rows can be sorted by name and time.
pub proof fn by_name_and_time_can_sort()
    ensures
        can_sort(by_name_and_time()),
{
    let before = by_name_and_time();
    assert forall|a: SummaryModel, b: SummaryModel| #[trigger] before(a, b) implies !before(
        b,
        a,
    ) by {
        text_order_is_irreflexive(a.task_name);
        if text_before(a.task_name, b.task_name) && text_before(b.task_name, a.task_name) {
            text_order_is_transitive(a.task_name, b.task_name, a.task_name);
        }
    }
    assert forall|a: SummaryModel, b: SummaryModel, c: SummaryModel| #[trigger]
        before(a, c) && !(#[trigger] before(a, b)) implies before(b, c) by {
        text_order_is_total(a.task_name, b.task_name);
        if text_before(b.task_name, a.task_name) && text_before(a.task_name, c.task_name) {
            text_order_is_transitive(b.task_name, a.task_name, c.task_name);
        }
    }
}

/// Adds entries up by task and subtask, in the order of the tasks' names.
pub fn summarize_by_task_and_subtask(
    entries: &Vec<TimeEntryView>,
) -> (result: Result<Vec<SummaryRow>, TrackerError>)
    requires
        none_negative(models(entries@)),
    ensures
        reported(
            result,
            summed(
                models(entries@),
                same_task_and_subtask(),
                summary_by_task_and_subtask(models(entries@)),
            ),
        ),
{
    let comes_before = |a: &SummaryRow, b: &SummaryRow| -> (answer: bool)
        ensures
            answer == by_name_and_time()(a@, b@),
    {
        is_before(a.task_name.as_str(), b.task_name.as_str()) || (same_text(
            a.task_name.as_str(),
            b.task_name.as_str(),
        ) && a.total_seconds > b.total_seconds)
    };
    proof {
        by_name_and_time_can_sort();
    }
    match group_entries(entries, true) {
        Ok(rows) => Ok(sort_by(rows, comes_before, Ghost(by_name_and_time()))),
        Err(error) => Err(error),
    }
}

// ---------------------------------------------------------------------------
// Rows of subtasks
// ---------------------------------------------------------------------------

/// The row for the entries of a subtask, with the number of tasks they are of.
pub open spec fn subtask_row(
    first: TimeEntryViewModel,
    group: Seq<TimeEntryViewModel>,
) -> SubtaskSummaryModel {
    SubtaskSummaryModel {
        subtask_id: first.subtask_id,
        subtask_name: first.subtask_name,
        task_count: firsts(group, same_task()).len() as i64,
        total_seconds: total_seconds(group) as i64,
        entry_count: group.len() as i64,
    }
}

/// The rows for the subtasks of entries, in the order in which they first occur.
pub open spec fn subtask_rows(entries: Seq<TimeEntryViewModel>) -> Seq<SubtaskSummaryModel> {
    firsts(entries, same_subtask()).map_values(
        |first: TimeEntryViewModel| subtask_row(first, group_of(entries, first, same_subtask())),
    )
}

/// Rows with more time come first.
pub open spec fn longest_subtask_first() -> spec_fn(
    SubtaskSummaryModel,
    SubtaskSummaryModel,
) -> bool {
    |a: SubtaskSummaryModel, b: SubtaskSummaryModel| a.total_seconds > b.total_seconds
}

/// Time by subtask across every task, the most first. Entries without a subtask
/// are together in one row without a name.
pub open spec fn summary_by_subtask(entries: Seq<TimeEntryViewModel>) -> Seq<SubtaskSummaryModel> {
    stable_sorted(subtask_rows(entries), longest_subtask_first())
}

/// The tasks of entries, each once.
pub open spec fn task_ids_of(entries: Seq<TimeEntryViewModel>) -> Seq<i64> {
    firsts(entries, same_task()).map_values(|entry: TimeEntryViewModel| entry.task_id)
}

/// One more entry adds its task unless the task is there.
proof fn lemma_task_ids_grow(entries: Seq<TimeEntryViewModel>, entry: TimeEntryViewModel)
    ensures
        task_ids_of(entries.push(entry)) == if task_ids_of(entries).contains(entry.task_id) {
            task_ids_of(entries)
        } else {
            task_ids_of(entries).push(entry.task_id)
        },
{
    let grouped = same_task();
    let starts = firsts(entries, grouped);
    let ids = task_ids_of(entries);
    assert(entries.push(entry).drop_last() == entries);
    if ids.contains(entry.task_id) {
        let k = choose|k: int| 0 <= k < ids.len() && ids[k] == entry.task_id;
        assert(grouped(starts[k], entry));
    } else {
        assert forall|k: int| 0 <= k < starts.len() implies !grouped(
            #[trigger] starts[k],
            entry,
        ) by {
            assert(ids[k] == starts[k].task_id);
            assert(ids.contains(ids[k]));
        }
        assert(task_ids_of(entries.push(entry)) == ids.push(entry.task_id));
    }
}

/// Whether a number is among others.
fn holds_id(ids: &Vec<i64>, id: i64) -> (result: bool)
    ensures
        result == ids@.contains(id),
{
    for i in 0..ids.len()
        invariant
            forall|k: int| 0 <= k < i ==> ids@[k] != id,
    {
        if ids[i] == id {
            return true;
        }
    }
    false
}

/// Adds entries up by subtask.
fn group_by_subtask(
    entries: &Vec<TimeEntryView>,
) -> (result: Result<Vec<SubtaskSummaryRow>, TrackerError>)
    requires
        none_negative(models(entries@)),
    ensures
        reported(
            result,
            summed(models(entries@), same_subtask(), subtask_rows(models(entries@))),
        ),
{
    broadcast use {models_of_push, models_of_update};

    let ghost all = models(entries@);
    let ghost grouped = same_subtask();
    assert(is_grouping(grouped));
    let mut rows: Vec<SubtaskSummaryRow> = Vec::new();
    let mut task_ids: Vec<Vec<i64>> = Vec::new();
    assert(models(rows@) == subtask_rows(all.take(0)));
    for i in 0..entries.len()
        invariant
            all == models(entries@),
            none_negative(all),
            rows_fit(all.take(i as int), grouped),
            grouped == same_subtask(),
            is_grouping(grouped),
            models(rows@) == subtask_rows(all.take(i as int)),
            task_ids@.len() == rows@.len(),
            forall|k: int|
                0 <= k < rows@.len() ==> (#[trigger] task_ids@[k])@ == task_ids_of(
                    group_of(
                        all.take(i as int),
                        firsts(all.take(i as int), grouped)[k],
                        grouped,
                    ),
                ),
    {
        let entry = &entries[i];
        let ghost so_far = all.take(i as int);
        let ghost item = all[i as int];
        let ghost starts = firsts(so_far, grouped);
        let ghost before = models(rows@);
        let ghost test = |row: SubtaskSummaryModel| row.subtask_id == item.subtask_id;
        let passes = |row: &SubtaskSummaryRow| -> (answer: bool)
            ensures
                answer == (row@.subtask_id == item.subtask_id),
        {
            row.subtask_id == entry.subtask_id
        };
        let found = find_by(&rows, passes, Ghost(test));
        proof {
            assert(entry@ == item);
            assert(all.take(i + 1) == so_far.push(item));
            position_is_the_first(before, test);
            assert forall|j: int| 0 <= j < starts.len() implies grouped(
                #[trigger] starts[j],
                item,
            ) == test(before[j]) by {}
            let k = match found {
                Some(k) => k as int,
                None => starts.len() as int,
            };
            assert forall|j: int| 0 <= j < starts.len() && found is None implies !grouped(
                #[trigger] starts[j],
                item,
            ) by {
                assert(!test(before[j]));
            }
            lemma_groups_grow(so_far, item, grouped, k);
            assert forall|j: int| 0 <= j < so_far.len() implies 0 <= (
            #[trigger] so_far[j]).duration_seconds by {
                assert(so_far[j] == all[j]);
            }
            if found is None {
                lemma_rows_keep_fitting(so_far, item, grouped, k);
            }
        }
        match found {
            Some(k) => {
                let ghost group = group_of(so_far, starts[k as int], grouped);
                proof {
                    assert(rows@[k as int]@ == before[k as int]);
                    assert(before[k as int] == subtask_row(starts[k as int], group));
                    lemma_total_push(group, item);
                    lemma_task_ids_grow(group, item);
                    lemma_firsts_are_fewer(group, same_task());
                    assert(group_of(so_far.push(item), starts[k as int], grouped) == group.push(
                        item,
                    ));
                    lemma_part_of_total(so_far, grouped_with(starts[k as int], grouped));
                    assert(can_hold(group_of(so_far, firsts(so_far, grouped)[k as int], grouped)));
                }
                if entry.duration_seconds > i64::MAX - rows[k].total_seconds || rows[k].entry_count
                    == i64::MAX {
                    proof {
                        assert(!can_hold(group.push(item)));
                        let after = all.take(i + 1);
                        assert(firsts(after, grouped)[k as int] == starts[k as int]);
                        assert(!can_hold(
                            group_of(after, firsts(after, grouped)[k as int], grouped),
                        ));
                        if rows_fit(all, grouped) {
                            lemma_rows_fitted(all, i + 1, grouped);
                        }
                    }
                    return Err(TrackerError::TotalOutOfRange);
                }
                proof {
                    lemma_rows_keep_fitting(so_far, item, grouped, k as int);
                }
                rows[k].total_seconds = rows[k].total_seconds + entry.duration_seconds;
                rows[k].entry_count = rows[k].entry_count + 1;
                if !holds_id(&task_ids[k], entry.task_id) {
                    task_ids[k].push(entry.task_id);
                    rows[k].task_count = rows[k].task_count + 1;
                }
                proof {
                    assert(task_ids@[k as int]@ == task_ids_of(group.push(item)));
                    assert(task_ids@[k as int]@.len() == firsts(
                        group.push(item),
                        same_task(),
                    ).len());
                    assert(models(rows@)[k as int] == subtask_row(
                        starts[k as int],
                        group.push(item),
                    ));
                    assert(models(rows@) == subtask_rows(all.take(i + 1)));
                }
            },
            None => {
                proof {
                    lemma_total_push(Seq::empty(), item);
                    lemma_task_ids_grow(Seq::empty(), item);
                    assert(Seq::<TimeEntryViewModel>::empty().push(item) == seq![item]);
                    assert(firsts(Seq::<TimeEntryViewModel>::empty(), same_task()).len() == 0);
                }
                rows.push(
                    SubtaskSummaryRow {
                        subtask_id: entry.subtask_id,
                        subtask_name: entry.subtask_name.clone(),
                        task_count: 1,
                        total_seconds: entry.duration_seconds,
                        entry_count: 1,
                    },
                );
                let mut ids: Vec<i64> = Vec::new();
                ids.push(entry.task_id);
                proof {
                    assert(ids@ == task_ids_of(seq![item]));
                    assert(ids@.len() == firsts(seq![item], same_task()).len());
                    assert(models(rows@) == subtask_rows(all.take(i + 1)));
                }
                task_ids.push(ids);
            },
        }
    }
    assert(all.take(all.len() as int) == all);
    Ok(rows)
}

/// Adds entries up by subtask across every task, the most time first. Entries
/// without a subtask are collected into a single unnamed row.
pub fn summarize_by_subtask(
    entries: &Vec<TimeEntryView>,
) -> (result: Result<Vec<SubtaskSummaryRow>, TrackerError>)
    requires
        none_negative(models(entries@)),
    ensures
        reported(
            result,
            summed(models(entries@), same_subtask(), summary_by_subtask(models(entries@))),
        ),
{
    let comes_before = |a: &SubtaskSummaryRow, b: &SubtaskSummaryRow| -> (answer: bool)
        ensures
            answer == longest_subtask_first()(a@, b@),
    {
        a.total_seconds > b.total_seconds
    };
    match group_by_subtask(entries) {
        Ok(rows) => Ok(sort_by(rows, comes_before, Ghost(longest_subtask_first()))),
        Err(error) => Err(error),
    }
}

// ---------------------------------------------------------------------------
// Summaries of the tables
// ---------------------------------------------------------------------------

impl StoreModel {
    /// A report's time by task.
    pub open spec fn summary_by_task(self, range: Option<ReportRange>, now: Timestamp) -> Result<
        Seq<SummaryModel>,
        TrackerError,
    > {
        match self.report_entries(range, now) {
            Err(error) => Err(error),
            Ok(entries) => summed(entries, same_task(), summary_by_task(entries)),
        }
    }

    /// A report's time by task and subtask.
    pub open spec fn summary_by_task_and_subtask(
        self,
        range: Option<ReportRange>,
        now: Timestamp,
    ) -> Result<Seq<SummaryModel>, TrackerError> {
        match self.report_entries(range, now) {
            Err(error) => Err(error),
            Ok(entries) => summed(
                entries,
                same_task_and_subtask(),
                summary_by_task_and_subtask(entries),
            ),
        }
    }

    /// A report's time by subtask.
    pub open spec fn summary_by_subtask(self, range: Option<ReportRange>, now: Timestamp) -> Result<
        Seq<SubtaskSummaryModel>,
        TrackerError,
    > {
        match self.report_entries(range, now) {
            Err(error) => Err(error),
            Ok(entries) => summed(entries, same_subtask(), summary_by_subtask(entries)),
        }
    }
}

/// Entries of bounded length add up to a bounded total.
proof fn lemma_total_is_bounded(entries: Seq<TimeEntryViewModel>)
    requires
        forall|i: int|
            0 <= i < entries.len() ==> 0 <= (#[trigger] entries[i]).duration_seconds
                <= LONGEST_SPAN,
    ensures
        0 <= total_seconds(entries) <= entries.len() * LONGEST_SPAN,
    decreases entries.len(),
{
    if entries.len() > 0 {
        let rest = entries.drop_last();
        assert forall|i: int| 0 <= i < rest.len() implies 0 <= (
        #[trigger] rest[i]).duration_seconds <= LONGEST_SPAN by {
            assert(rest[i] == entries[i]);
        }
        lemma_total_is_bounded(rest);
        assert(entries.last() == entries[entries.len() - 1]);
        assert(entries.len() * LONGEST_SPAN == rest.len() * LONGEST_SPAN + LONGEST_SPAN)
            by (nonlinear_arith)
            requires
                entries.len() == rest.len() + 1,
        ;
    }
}

/// The groups of no more entries than a report over everything covers fit.
proof fn lemma_few_entries_fit(
    entries: Seq<TimeEntryViewModel>,
    grouped: spec_fn(TimeEntryViewModel, TimeEntryViewModel) -> bool,
)
    requires
        entries.len() <= REPORT_LIMIT,
        forall|i: int|
            0 <= i < entries.len() ==> 0 <= (#[trigger] entries[i]).duration_seconds
                <= LONGEST_SPAN,
    ensures
        rows_fit(entries, grouped),
{
    lemma_total_is_bounded(entries);
    assert forall|k: int| 0 <= k < firsts(entries, grouped).len() implies can_hold(
        group_of(entries, #[trigger] firsts(entries, grouped)[k], grouped),
    ) by {
        lemma_part_of_total(entries, grouped_with(firsts(entries, grouped)[k], grouped));
    }
}

/// The entries of a report, whose groups fit where it covers everything.
fn entries_to_sum(
    store: &Store,
    range: Option<&ReportRange>,
    now: Timestamp,
    Ghost(grouped): Ghost<spec_fn(TimeEntryViewModel, TimeEntryViewModel) -> bool>,
) -> (result: Result<Vec<TimeEntryView>, TrackerError>)
    requires
        store@.wf(),
        now.valid(),
        range matches Some(range) ==> range.start.valid() && range.end.valid(),
    ensures
        reported(result, store@.report_entries(range_of(range), now)),
        result matches Ok(entries) ==> none_negative(models(entries@)),
        range is None ==> result is Ok && rows_fit(models(result->Ok_0@), grouped),
{
    let entries = match report_entries_inner_at(store, range, now) {
        Ok(entries) => entries,
        Err(error) => return Err(error),
    };
    proof {
        let all = models(entries@);
        assert forall|i: int| 0 <= i < all.len() implies 0 <= (
        #[trigger] all[i]).duration_seconds <= LONGEST_SPAN by {
            assert(all[i].duration_seconds == entries@[i].duration_seconds);
        }
        if range is None {
            lemma_few_entries_fit(all, grouped);
        }
    }
    Ok(entries)
}

/// A report's time by task, as of a given instant.
pub fn summary_by_task_inner_at(
    store: &Store,
    range: Option<&ReportRange>,
    now: Timestamp,
) -> (result: Result<Vec<SummaryRow>, TrackerError>)
    requires
        store@.wf(),
        now.valid(),
        range matches Some(range) ==> range.start.valid() && range.end.valid(),
    ensures
        reported(result, store@.summary_by_task(range_of(range), now)),
        range is None ==> result is Ok,
{
    match entries_to_sum(store, range, now, Ghost(same_task())) {
        Ok(entries) => summarize_by_task(&entries),
        Err(error) => Err(error),
    }
}

/// A report's time by task, as of now.
pub fn summary_by_task_inner(
    store: &Store,
    range: Option<&ReportRange>,
) -> (result: Result<Vec<SummaryRow>, TrackerError>)
    requires
        store@.wf(),
        range matches Some(range) ==> range.start.valid() && range.end.valid(),
    ensures
        exists|now: Timestamp| #[trigger]
            now.from_clock() && reported(result, store@.summary_by_task(range_of(range), now)),
        range is None ==> result is Ok,
{
    let now = utc_now();
    summary_by_task_inner_at(store, range, now)
}

/// A report's time by task and subtask, as of a given instant.
pub fn summary_by_task_and_subtask_inner_at(
    store: &Store,
    range: Option<&ReportRange>,
    now: Timestamp,
) -> (result: Result<Vec<SummaryRow>, TrackerError>)
    requires
        store@.wf(),
        now.valid(),
        range matches Some(range) ==> range.start.valid() && range.end.valid(),
    ensures
        reported(result, store@.summary_by_task_and_subtask(range_of(range), now)),
        range is None ==> result is Ok,
{
    match entries_to_sum(store, range, now, Ghost(same_task_and_subtask())) {
        Ok(entries) => summarize_by_task_and_subtask(&entries),
        Err(error) => Err(error),
    }
}

/// A report's time by task and subtask, as of now.
pub fn summary_by_task_and_subtask_inner(
    store: &Store,
    range: Option<&ReportRange>,
) -> (result: Result<Vec<SummaryRow>, TrackerError>)
    requires
        store@.wf(),
        range matches Some(range) ==> range.start.valid() && range.end.valid(),
    ensures
        exists|now: Timestamp| #[trigger]
            now.from_clock() && reported(
                result,
                store@.summary_by_task_and_subtask(range_of(range), now),
            ),
        range is None ==> result is Ok,
{
    let now = utc_now();
    summary_by_task_and_subtask_inner_at(store, range, now)
}

/// A report's time by subtask, as of a given instant.
pub fn summary_by_subtask_inner_at(
    store: &Store,
    range: Option<&ReportRange>,
    now: Timestamp,
) -> (result: Result<Vec<SubtaskSummaryRow>, TrackerError>)
    requires
        store@.wf(),
        now.valid(),
        range matches Some(range) ==> range.start.valid() && range.end.valid(),
    ensures
        reported(result, store@.summary_by_subtask(range_of(range), now)),
        range is None ==> result is Ok,
{
    match entries_to_sum(store, range, now, Ghost(same_subtask())) {
        Ok(entries) => summarize_by_subtask(&entries),
        Err(error) => Err(error),
    }
}

/// A report's time by subtask, as of now.
pub fn summary_by_subtask_inner(
    store: &Store,
    range: Option<&ReportRange>,
) -> (result: Result<Vec<SubtaskSummaryRow>, TrackerError>)
    requires
        store@.wf(),
        range matches Some(range) ==> range.start.valid() && range.end.valid(),
    ensures
        exists|now: Timestamp| #[trigger]
            now.from_clock() && reported(result, store@.summary_by_subtask(range_of(range), now)),
        range is None ==> result is Ok,
{
    let now = utc_now();
    summary_by_subtask_inner_at(store, range, now)
}

} // verus!
