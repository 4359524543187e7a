//! What holds of shared subtasks, whatever is asked of them.

use vstd::prelude::*;
use crate::clock::{entry_seconds, ReportRange, Timestamp};
use crate::entries::{newest, newest_are_recorded, newest_first, seconds_or_zero};
use crate::error::TrackerError;
use crate::lists::{
    filtered_items_were_there, filtering_follows_changes, firsts, firsts_follow_changes,
    firsts_were_there, lemma_position_found, position, position_is_the_first,
    positions_follow_changes, sorting_follows_changes, stable_sorted, sum_of,
};
use crate::migration::{earliest_first, is_named, kept_subtasks, shares_key, LegacyModel};
use crate::names::{blank_names_are_empty, stored_names_are_stable, subtask_key, subtask_name};
use crate::records::{SubtaskModel, SubtaskRowModel, TimeEntryModel, TimeEntryViewModel};
use crate::reports::{is_unreadable, lasts_in, reaches_into, REPORT_LIMIT};
use crate::store::{positions_find_subtasks, subtask_has_id, subtask_has_key, StoreModel};
use crate::subtasks::{another_has_key, lemma_join_fits, lemma_set_subtask_fits, moving, of_subtask};
use crate::summaries::{
    group_of, group_rows, grouped_with, lemma_total_push, same_task, summary_by_task, total_seconds,
};
use crate::text::trimmed;
use crate::timers::lemma_picked_are_recorded;

verus! {

// ---------------------------------------------------------------------------
// Names
// ---------------------------------------------------------------------------

/// Names that share a key stand for one subtask: naming it a second time, in
/// whatever spelling, finds the first and changes nothing.
pub proof fn names_with_one_key_are_one_subtask(
    m: StoreModel,
    first: Seq<char>,
    second: Seq<char>,
    now: Seq<char>,
    later: Seq<char>,
)
    requires
        m.upsert_subtask(first, now) is Ok,
        subtask_key(first) == subtask_key(second),
        subtask_name(second).len() > 0,
    ensures
        ({
            let done = m.upsert_subtask(first, now)->Ok_0;
            done.0.upsert_subtask(second, later) == Ok::<_, TrackerError>((done.0, done.1))
        }),
{
    let done = m.upsert_subtask(first, now)->Ok_0;
    let after = done.0;
    let test = subtask_has_key(subtask_key(first));
    position_is_the_first(m.subtasks, test);
    let i = match position(m.subtasks, test) {
        Some(i) => i,
        None => m.subtasks.len() as int,
    };
    assert forall|j: int| 0 <= j < i implies !test(#[trigger] after.subtasks[j]) by {
        assert(!test(m.subtasks[j]));
    }
    lemma_position_found(after.subtasks, test, i);
    assert(after.subtasks.update(i, after.subtasks[i]) == after.subtasks);
}

/// A subtask that was named is in use: it is there, and not archived.
pub proof fn a_named_subtask_is_in_use(m: StoreModel, name: Seq<char>, now: Seq<char>)
    requires
        m.upsert_subtask(name, now) is Ok,
    ensures
        ({
            let done = m.upsert_subtask(name, now)->Ok_0;
            exists|i: int|
                0 <= i < done.0.subtasks.len() && (#[trigger] done.0.subtasks[i]).shown() == done.1
                    && done.0.subtasks[i].archived_at is None && done.0.subtasks[i].name_key
                    == subtask_key(name)
        }),
{
    let done = m.upsert_subtask(name, now)->Ok_0;
    let test = subtask_has_key(subtask_key(name));
    position_is_the_first(m.subtasks, test);
    let i = match position(m.subtasks, test) {
        Some(i) => i,
        None => m.subtasks.len() as int,
    };
    assert(done.0.subtasks[i].shown() == done.1);
}

/// A name that shares its key with a subtask that is there finds that subtask: it
/// keeps its identifier, its spelling and the time it was created, is in use even
/// if it was archived, and none is added.
pub proof fn naming_finds_the_subtask(m: StoreModel, i: int, name: Seq<char>, now: Seq<char>)
    requires
        m.wf(),
        0 <= i < m.subtasks.len(),
        m.subtasks[i].name_key == subtask_key(name),
        subtask_name(name).len() > 0,
    ensures
        m.upsert_subtask(name, now) matches Ok(done) && done.1 == (SubtaskModel {
            archived_at: None,
            ..m.subtasks[i].shown()
        }) && done.0.subtasks.len() == m.subtasks.len(),
{
    let test = subtask_has_key(subtask_key(name));
    assert forall|j: int| 0 <= j < i implies !test(#[trigger] m.subtasks[j]) by {
        assert(m.subtasks[j].name_key != m.subtasks[i].name_key);
    }
    lemma_position_found(m.subtasks, test, i);
}

/// Naming a subtask or renaming one is refused for want of a name exactly where
/// the name is blank.
pub proof fn blank_subtask_names_are_refused(
    m: StoreModel,
    id: i64,
    name: Seq<char>,
    now: Seq<char>,
)
    ensures
        m.upsert_subtask(name, now) == Err::<
            (StoreModel, SubtaskModel),
            TrackerError,
        >(TrackerError::MissingSubtaskName) <==> trimmed(name).len() == 0,
        m.renamed_subtask(id, name) == Err::<StoreModel, TrackerError>(
            TrackerError::MissingSubtaskName,
        ) <==> trimmed(name).len() == 0,
{
    blank_names_are_empty(name);
}

/// Whether every subtask has a tidy name, and the key that belongs to it.
pub open spec fn names_fit_keys(m: StoreModel) -> bool {
    forall|i: int|
        0 <= i < m.subtasks.len() ==> {
            &&& (#[trigger] m.subtasks[i]).name.len() > 0
            &&& m.subtasks[i].name == subtask_name(m.subtasks[i].name)
            &&& m.subtasks[i].name_key == subtask_key(m.subtasks[i].name)
        }
}

/// Whatever is done to subtasks, every one keeps a tidy name and the key that
/// belongs to it.
pub proof fn names_keep_fitting_their_keys(
    m: StoreModel,
    id: i64,
    name: Seq<char>,
    archived: bool,
    now: Seq<char>,
)
    requires
        m.wf(),
        names_fit_keys(m),
    ensures
        m.upsert_subtask(name, now) matches Ok(done) ==> names_fit_keys(done.0),
        m.renamed_subtask(id, name) matches Ok(done) ==> names_fit_keys(done),
        names_fit_keys(m.archived_subtask(id, archived, now)),
{
    stored_names_are_stable(name);
    positions_find_subtasks(m, id);
    let key = subtask_key(name);
    position_is_the_first(m.subtasks, subtask_has_key(key));
    if let Ok(done) = m.upsert_subtask(name, now) {
        assert forall|i: int| 0 <= i < done.0.subtasks.len() implies {
            &&& (#[trigger] done.0.subtasks[i]).name.len() > 0
            &&& done.0.subtasks[i].name == subtask_name(done.0.subtasks[i].name)
            &&& done.0.subtasks[i].name_key == subtask_key(done.0.subtasks[i].name)
        } by {
            if i < m.subtasks.len() {
                assert(m.subtasks[i].name.len() > 0);
            }
        }
    }
    if let Ok(done) = m.renamed_subtask(id, name) {
        let moved = match position(m.subtasks, another_has_key(key, id)) {
            Some(t) => m.move_entries(id, m.subtasks[t].id),
            None => m,
        };
        assert(moved.subtasks == m.subtasks);
        assert(moved.subtask_at(id) == m.subtask_at(id));
        assert forall|i: int| 0 <= i < done.subtasks.len() implies {
            &&& (#[trigger] done.subtasks[i]).name.len() > 0
            &&& done.subtasks[i].name == subtask_name(done.subtasks[i].name)
            &&& done.subtasks[i].name_key == subtask_key(done.subtasks[i].name)
        } by {
            assert(m.subtasks[i].name.len() > 0);
            if i + 1 < m.subtasks.len() {
                assert(m.subtasks[i + 1].name.len() > 0);
            }
        }
    }
    let done = m.archived_subtask(id, archived, now);
    assert forall|i: int| 0 <= i < done.subtasks.len() implies {
        &&& (#[trigger] done.subtasks[i]).name.len() > 0
        &&& done.subtasks[i].name == subtask_name(done.subtasks[i].name)
        &&& done.subtasks[i].name_key == subtask_key(done.subtasks[i].name)
    } by {
        assert(m.subtasks[i].name.len() > 0);
    }
}

/// After migrating every subtask has a tidy name and the key that belongs to it.
pub proof fn migrated_names_fit_their_keys(m: LegacyModel)
    requires
        m.migrated() is Ok,
    ensures
        names_fit_keys(m.migrated()->Ok_0),
{
    let after = m.migrated()->Ok_0;
    let kept = kept_subtasks(m.subtasks);
    let ordered = stable_sorted(m.subtasks, earliest_first());
    let named = ordered.filter(is_named());
    firsts_were_there(named, shares_key());
    filtered_items_were_there(ordered, is_named());
    assert forall|i: int| 0 <= i < after.subtasks.len() implies {
        &&& (#[trigger] after.subtasks[i]).name.len() > 0
        &&& after.subtasks[i].name == subtask_name(after.subtasks[i].name)
        &&& after.subtasks[i].name_key == subtask_key(after.subtasks[i].name)
    } by {
        stored_names_are_stable(kept[i].name);
        assert(named.contains(kept[i]));
        let k = choose|k: int| 0 <= k < named.len() && named[k] == kept[i];
        assert(is_named()(named[k]));
    }
}

// ---------------------------------------------------------------------------
// Archiving
// ---------------------------------------------------------------------------

/// Archiving or restoring a subtask leaves tasks, entries, every report and the use
/// of the subtask as they are.
pub proof fn archiving_keeps_recorded_time(
    m: StoreModel,
    id: i64,
    archived: bool,
    now: Seq<char>,
    range: Option<ReportRange>,
    at: Timestamp,
)
    requires
        m.wf(),
    ensures
        m.archived_subtask(id, archived, now).tasks == m.tasks,
        m.archived_subtask(id, archived, now).entries == m.entries,
        m.archived_subtask(id, archived, now).report_entries(range, at) == m.report_entries(
            range,
            at,
        ),
        m.archived_subtask(id, archived, now).entries_of_subtask(id, at) == m.entries_of_subtask(
            id,
            at,
        ),
{
    let after = m.archived_subtask(id, archived, now);
    assert forall|entry: TimeEntryModel|
        m.entries.contains(entry) implies #[trigger] after.entry_view(entry, at) == m.entry_view(
        entry,
        at,
    ) by {
        let k = choose|k: int| 0 <= k < m.entries.len() && m.entries[k] == entry;
        assert(m.resolves(m.entries[k]));
        if let Some(used) = entry.subtask_id {
            positions_find_subtasks(m, used);
            lemma_archiving_keeps_places(m, id, archived, now, used);
        }
    }
    let used = m.entries.filter(of_subtask(id));
    filtered_items_were_there(m.entries, of_subtask(id));
    assert(used.map_values(after.shows(at)) == used.map_values(m.shows(at)));
    match range {
        None => {
            let sorted = newest(m.entries);
            newest_are_recorded(m.entries);
            let kept = if REPORT_LIMIT < sorted.len() {
                sorted.take(REPORT_LIMIT as int)
            } else {
                sorted
            };
            assert forall|k: int| 0 <= k < kept.len() implies after.entry_view(
                #[trigger] kept[k],
                at,
            ) == m.entry_view(kept[k], at) by {
                assert(m.entries.contains(sorted[k]));
            }
            assert(kept.map_values(after.shows(at)) == kept.map_values(m.shows(at)));
        },
        Some(range) => {
            let reached = newest(m.entries.filter(reaches_into(range, at)));
            let lasting = reached.filter(lasts_in(range, at));
            lemma_picked_are_recorded(m.entries, reaches_into(range, at));
            filtered_items_were_there(reached, lasts_in(range, at));
            assert forall|k: int| 0 <= k < lasting.len() implies after.entry_view(
                #[trigger] lasting[k],
                at,
            ) == m.entry_view(lasting[k], at) by {
                assert(reached.contains(lasting[k]));
                let j = choose|j: int| 0 <= j < reached.len() && reached[j] == lasting[k];
                assert(m.entries.contains(reached[j]));
            }
            assert(lasting.map_values(after.shows_in(range, at)) == lasting.map_values(
                m.shows_in(range, at),
            ));
        },
    }
}

proof fn lemma_archiving_keeps_places(
    m: StoreModel,
    id: i64,
    archived: bool,
    now: Seq<char>,
    used: i64,
)
    ensures
        m.archived_subtask(id, archived, now).subtask_at(used) == m.subtask_at(used),
        m.subtask_at(used) matches Some(k) ==> m.archived_subtask(
            id,
            archived,
            now,
        ).subtasks[k].name == m.subtasks[k].name,
{
    let after = m.archived_subtask(id, archived, now);
    let test = subtask_has_id(used);
    position_is_the_first(m.subtasks, subtask_has_id(id));
    position_is_the_first(m.subtasks, test);
    position_is_the_first(after.subtasks, test);
    assert forall|j: int| 0 <= j < m.subtasks.len() implies test(#[trigger] after.subtasks[j])
        == test(m.subtasks[j]) by {}
    match m.subtask_at(used) {
        Some(k) => {
            assert forall|j: int| 0 <= j < k implies !test(#[trigger] after.subtasks[j]) by {
                assert(!test(m.subtasks[j]));
            }
            lemma_position_found(after.subtasks, test, k);
        },
        None => {
            if let Some(k) = after.subtask_at(used) {
                assert(test(m.subtasks[k]));
            }
        },
    }
}

/// Restoring an archived subtask brings back what was there before.
pub proof fn restoring_undoes_archiving(
    m: StoreModel,
    id: i64,
    now: Seq<char>,
    later: Seq<char>,
)
    requires
        m.subtask_at(id) matches Some(i) ==> m.subtasks[i].archived_at is None,
    ensures
        m.archived_subtask(id, true, now).archived_subtask(id, false, later) == m,
{
    let between = m.archived_subtask(id, true, now);
    let after = between.archived_subtask(id, false, later);
    lemma_archiving_keeps_places(m, id, true, now, id);
    positions_find_subtasks(m, id);
    if let Some(i) = m.subtask_at(id) {
        assert(after.subtasks == m.subtasks);
    }
}

// ---------------------------------------------------------------------------
// Renaming
// ---------------------------------------------------------------------------

/// Whether shown entries are the same but for their subtasks.
pub open spec fn same_but_subtasks(
    a: Seq<TimeEntryViewModel>,
    b: Seq<TimeEntryViewModel>,
) -> bool {
    &&& a.len() == b.len()
    &&& forall|k: int|
        0 <= k < a.len() ==> (#[trigger] b[k]) == (TimeEntryViewModel {
            subtask_id: b[k].subtask_id,
            subtask_name: b[k].subtask_name,
            ..a[k]
        })
}

/// Whether two reports show the same entries but for their subtasks, or cannot be
/// made for the same reason.
pub open spec fn same_report_but_subtasks(
    a: Result<Seq<TimeEntryViewModel>, TrackerError>,
    b: Result<Seq<TimeEntryViewModel>, TrackerError>,
) -> bool {
    match (a, b) {
        (Ok(a), Ok(b)) => same_but_subtasks(a, b),
        (Err(a), Err(b)) => a == b,
        _ => false,
    }
}

/// Reports follow a change of entries that keeps all but their subtasks.
proof fn lemma_reports_follow(
    m: StoreModel,
    after: StoreModel,
    change: spec_fn(TimeEntryModel) -> TimeEntryModel,
    range: Option<ReportRange>,
    at: Timestamp,
)
    requires
        after.tasks == m.tasks,
        after.entries == m.entries.map_values(change),
        forall|e: TimeEntryModel| #[trigger]
            change(e) == (TimeEntryModel { subtask_id: change(e).subtask_id, ..e }),
    ensures
        same_report_but_subtasks(m.report_entries(range, at), after.report_entries(range, at)),
{
    assert forall|a: TimeEntryModel, b: TimeEntryModel| #[trigger] newest_first()(a, b)
        == newest_first()(change(a), change(b)) by {}
    match range {
        None => {
            sorting_follows_changes(m.entries, change, newest_first(), newest_first());
            let x = m.recent_entries(REPORT_LIMIT, at);
            let y = after.recent_entries(REPORT_LIMIT, at);
            let sorted = newest(m.entries);
            assert(newest(after.entries) == sorted.map_values(change));
            assert forall|k: int| 0 <= k < x.len() implies (#[trigger] y[k])
                == (TimeEntryViewModel {
                subtask_id: y[k].subtask_id,
                subtask_name: y[k].subtask_name,
                ..x[k]
            }) by {
                assert(x[k] == m.entry_view(sorted[k], at));
                assert(y[k] == after.entry_view(change(sorted[k]), at));
                assert(after.task_at(sorted[k].task_id) == m.task_at(sorted[k].task_id));
            }
        },
        Some(range) => {
            let reaches = reaches_into(range, at);
            let fails = is_unreadable(range, at);
            let lasts = lasts_in(range, at);
            assert forall|e: TimeEntryModel| #[trigger] reaches(e) == reaches(change(e)) by {}
            assert forall|e: TimeEntryModel| #[trigger] fails(e) == fails(change(e)) by {}
            assert forall|e: TimeEntryModel| #[trigger] lasts(e) == lasts(change(e)) by {}
            let picked = m.entries.filter(reaches);
            filtering_follows_changes(m.entries, change, reaches, reaches);
            sorting_follows_changes(picked, change, newest_first(), newest_first());
            let reached = newest(picked);
            assert(newest(after.entries.filter(reaches)) == reached.map_values(change));
            positions_follow_changes(reached, change, fails, fails);
            position_is_the_first(reached, fails);
            filtering_follows_changes(reached, change, lasts, lasts);
            let lasting = reached.filter(lasts);
            if position(reached, fails) is None {
                let x = lasting.map_values(m.shows_in(range, at));
                let y = lasting.map_values(change).map_values(after.shows_in(range, at));
                assert forall|k: int| 0 <= k < x.len() implies (#[trigger] y[k])
                    == (TimeEntryViewModel {
                    subtask_id: y[k].subtask_id,
                    subtask_name: y[k].subtask_name,
                    ..x[k]
                }) by {
                    assert(after.task_at(lasting[k].task_id) == m.task_at(lasting[k].task_id));
                }
            }
        },
    }
}

/// Renaming a subtask, and merging it into another by that, loses no entry and no
/// recorded time: entries keep all but their subtask, and so do all reports.
pub proof fn renaming_keeps_recorded_time(
    m: StoreModel,
    id: i64,
    name: Seq<char>,
    range: Option<ReportRange>,
    at: Timestamp,
)
    requires
        m.renamed_subtask(id, name) is Ok,
    ensures
        m.renamed_subtask(id, name)->Ok_0.tasks == m.tasks,
        m.renamed_subtask(id, name)->Ok_0.entries.len() == m.entries.len(),
        forall|k: int|
            0 <= k < m.entries.len() ==> ({
                let entry = #[trigger] m.renamed_subtask(id, name)->Ok_0.entries[k];
                entry == (TimeEntryModel { subtask_id: entry.subtask_id, ..m.entries[k] })
            }),
        same_report_but_subtasks(
            m.report_entries(range, at),
            m.renamed_subtask(id, name)->Ok_0.report_entries(range, at),
        ),
{
    let after = m.renamed_subtask(id, name)->Ok_0;
    match position(m.subtasks, another_has_key(subtask_key(name), id)) {
        Some(t) => {
            let change = moving(id, m.subtasks[t].id);
            lemma_reports_follow(m, after, change, range, at);
        },
        None => {
            let change = |e: TimeEntryModel| e;
            assert(m.entries.map_values(change) == m.entries);
            lemma_reports_follow(m, after, change, range, at);
        },
    }
}

/// Shown entries that are the same but for their subtasks add up to the same time.
pub proof fn subtasks_do_not_change_totals(
    a: Seq<TimeEntryViewModel>,
    b: Seq<TimeEntryViewModel>,
)
    requires
        same_but_subtasks(a, b),
    ensures
        total_seconds(a) == total_seconds(b),
    decreases a.len(),
{
    if a.len() > 0 {
        let n = a.len() - 1;
        assert(b[n].duration_seconds == a[n].duration_seconds);
        assert forall|k: int| 0 <= k < n implies (#[trigger] b.drop_last()[k])
            == (TimeEntryViewModel {
            subtask_id: b.drop_last()[k].subtask_id,
            subtask_name: b.drop_last()[k].subtask_name,
            ..a.drop_last()[k]
        }) by {
            assert(b.drop_last()[k] == b[k]);
        }
        subtasks_do_not_change_totals(a.drop_last(), b.drop_last());
    }
}

/// Shown entries without their subtasks.
pub open spec fn without_subtask() -> spec_fn(TimeEntryViewModel) -> TimeEntryViewModel {
    |entry: TimeEntryViewModel|
        TimeEntryViewModel { subtask_id: None, subtask_name: None, ..entry }
}

/// The time by task does not depend on the subtasks of entries.
proof fn lemma_summary_ignores_subtasks(entries: Seq<TimeEntryViewModel>)
    ensures
        summary_by_task(entries.map_values(without_subtask())) == summary_by_task(entries),
{
    let change = without_subtask();
    let grouped = same_task();
    let plain = entries.map_values(change);
    let starts = firsts(entries, grouped);
    assert forall|a: TimeEntryViewModel, b: TimeEntryViewModel| #[trigger] grouped(a, b) == grouped(
        change(a),
        change(b),
    ) by {}
    firsts_follow_changes(entries, change, grouped, grouped);
    let rows = group_rows(entries, false);
    let plain_rows = group_rows(plain, false);
    assert forall|i: int| 0 <= i < rows.len() implies #[trigger] plain_rows[i] == rows[i] by {
        let first = starts[i];
        let test = grouped_with(first, grouped);
        let plain_test = grouped_with(change(first), grouped);
        assert forall|e: TimeEntryViewModel| #[trigger] test(e) == plain_test(change(e)) by {}
        filtering_follows_changes(entries, change, test, plain_test);
        let group = group_of(entries, first, grouped);
        let plain_group = group.map_values(change);
        assert(group_of(plain, change(first), grouped) == plain_group);
        assert forall|k: int| 0 <= k < group.len() implies (#[trigger] plain_group[k])
            == (TimeEntryViewModel {
            subtask_id: plain_group[k].subtask_id,
            subtask_name: plain_group[k].subtask_name,
            ..group[k]
        }) by {}
        subtasks_do_not_change_totals(group, plain_group);
        assert(firsts(plain, grouped)[i] == change(first));
    }
    assert(plain_rows == rows);
}

/// Shown entries that are the same but for their subtasks give the same time by
/// task.
pub proof fn subtasks_do_not_change_time_by_task(
    a: Seq<TimeEntryViewModel>,
    b: Seq<TimeEntryViewModel>,
)
    requires
        same_but_subtasks(a, b),
    ensures
        summary_by_task(a) == summary_by_task(b),
{
    let change = without_subtask();
    assert forall|k: int| 0 <= k < a.len() implies #[trigger] a.map_values(change)[k]
        == b.map_values(change)[k] by {
        assert(b[k] == (TimeEntryViewModel {
            subtask_id: b[k].subtask_id,
            subtask_name: b[k].subtask_name,
            ..a[k]
        }));
    }
    assert(a.map_values(change) == b.map_values(change));
    lemma_summary_ignores_subtasks(a);
    lemma_summary_ignores_subtasks(b);
}

/// The entries of a renamed subtask are those of the subtask that has the new
/// name; other entries keep their subtask.
pub proof fn renamed_entries_have_the_new_name(m: StoreModel, id: i64, name: Seq<char>, k: int)
    requires
        m.wf(),
        m.has_subtask(id),
        m.renamed_subtask(id, name) is Ok,
        0 <= k < m.entries.len(),
    ensures
        ({
            let after = m.renamed_subtask(id, name)->Ok_0;
            if m.entries[k].subtask_id == Some(id) {
                after.entries[k].subtask_id matches Some(new_id) && (after.subtask_at(
                    new_id,
                ) matches Some(i) && after.subtasks[i].name_key == subtask_key(name))
            } else {
                after.entries[k] == m.entries[k]
            }
        }),
{
    let after = m.renamed_subtask(id, name)->Ok_0;
    let key = subtask_key(name);
    position_is_the_first(m.subtasks, another_has_key(key, id));
    positions_find_subtasks(m, id);
    let place = m.subtask_at(id)->Some_0;
    match position(m.subtasks, another_has_key(key, id)) {
        Some(t) => {
            let target = m.subtasks[t].id;
            let moved = m.move_entries(id, target);
            assert(moved.subtask_at(id) == m.subtask_at(id));
            lemma_join_fits(m, id, target);
            let i = if t < place {
                t
            } else {
                t - 1
            };
            assert(after.subtasks[i] == m.subtasks[t]);
            lemma_subtask_place(after, i);
        },
        None => {
            let renamed = SubtaskRowModel {
                name: subtask_name(name),
                name_key: key,
                ..m.subtasks[place]
            };
            lemma_set_subtask_fits(m, id, renamed);
            assert(after.subtasks[place] == renamed);
            lemma_subtask_place(after, place);
        },
    }
}

/// A subtask stands where its identifier is found.
pub proof fn lemma_subtask_place(m: StoreModel, i: int)
    requires
        m.wf(),
        0 <= i < m.subtasks.len(),
    ensures
        m.subtask_at(m.subtasks[i].id) == Some(i),
{
    let test = subtask_has_id(m.subtasks[i].id);
    assert forall|j: int| 0 <= j < i implies !test(#[trigger] m.subtasks[j]) by {
        assert(m.subtasks[j].id < m.subtasks[i].id);
    }
    lemma_position_found(m.subtasks, test, i);
}

/// Renaming a subtask to the name of another makes one of the two: the renamed
/// one is gone, the other is as it was.
pub proof fn renaming_onto_a_taken_name_merges(m: StoreModel, id: i64, name: Seq<char>, t: int)
    requires
        m.wf(),
        m.has_subtask(id),
        0 <= t < m.subtasks.len(),
        m.subtasks[t].id != id,
        m.subtasks[t].name_key == subtask_key(name),
        subtask_name(name).len() > 0,
    ensures
        m.renamed_subtask(id, name) is Ok,
        m.renamed_subtask(id, name)->Ok_0.subtasks.len() == m.subtasks.len() - 1,
        !m.renamed_subtask(id, name)->Ok_0.has_subtask(id),
        m.renamed_subtask(id, name)->Ok_0.subtasks.contains(m.subtasks[t]),
{
    let after = m.renamed_subtask(id, name)->Ok_0;
    let test = another_has_key(subtask_key(name), id);
    position_is_the_first(m.subtasks, test);
    positions_find_subtasks(m, id);
    assert(test(m.subtasks[t]));
    let place = m.subtask_at(id)->Some_0;
    let target = m.subtasks[position(m.subtasks, test)->Some_0].id;
    let moved = m.move_entries(id, target);
    assert(moved.subtask_at(id) == m.subtask_at(id));
    assert(after.subtasks == m.subtasks.remove(place));
    if after.has_subtask(id) {
        let i = choose|i: int|
            0 <= i < after.subtasks.len() && (#[trigger] after.subtasks[i]).id == id;
        if i < place {
            assert(m.subtasks[i].id < m.subtasks[place].id);
        } else {
            assert(m.subtasks[place].id < m.subtasks[i + 1].id);
        }
    }
    if t < place {
        assert(after.subtasks[t] == m.subtasks[t]);
    } else {
        assert(after.subtasks[t - 1] == m.subtasks[t]);
    }
}

/// The time and the number of the entries of a subtask as sums over all entries.
pub proof fn lemma_usage_is_a_sum(m: StoreModel, s: Seq<TimeEntryModel>, id: i64, now: Timestamp)
    ensures
        ({
            let used = s.filter(of_subtask(id)).map_values(m.shows(now));
            total_seconds(used) == sum_of(s, seconds_for(id, now)) && used.len() == sum_of(
                s,
                one_for(id),
            )
        }),
    decreases s.len(),
{
    reveal(Seq::filter);
    let test = of_subtask(id);
    let shows = m.shows(now);
    if s.len() > 0 {
        let rest = s.drop_last();
        let kept = rest.filter(test);
        lemma_usage_is_a_sum(m, rest, id, now);
        assert(kept.push(s.last()).map_values(shows) == kept.map_values(shows).push(
            shows(s.last()),
        ));
        lemma_total_push(kept.map_values(shows), shows(s.last()));
    } else {
        assert(s.filter(test).map_values(shows) == Seq::<TimeEntryViewModel>::empty());
    }
}

/// The time of an entry that has a subtask; none of one that has not.
pub open spec fn seconds_for(id: i64, now: Timestamp) -> spec_fn(TimeEntryModel) -> int {
    |entry: TimeEntryModel|
        if entry.subtask_id == Some(id) {
            seconds_or_zero(entry_seconds(entry.started_at, entry.ended_at, now)) as int
        } else {
            0
        }
}

/// One for an entry that has a subtask; none for one that has not.
pub open spec fn one_for(id: i64) -> spec_fn(TimeEntryModel) -> int {
    |entry: TimeEntryModel|
        if entry.subtask_id == Some(id) {
            1
        } else {
            0
        }
}

/// Entries that were moved add up, for the subtask they were moved to, to what they
/// and its own did.
proof fn lemma_moved_entries_add_up(s: Seq<TimeEntryModel>, from: i64, to: i64, now: Timestamp)
    requires
        from != to,
    ensures
        sum_of(s.map_values(moving(from, to)), seconds_for(to, now)) == sum_of(
            s,
            seconds_for(to, now),
        ) + sum_of(s, seconds_for(from, now)),
        sum_of(s.map_values(moving(from, to)), one_for(to)) == sum_of(s, one_for(to)) + sum_of(
            s,
            one_for(from),
        ),
    decreases s.len(),
{
    if s.len() > 0 {
        let rest = s.drop_last();
        lemma_moved_entries_add_up(rest, from, to, now);
        assert(s.map_values(moving(from, to)).drop_last() == rest.map_values(moving(from, to)));
    }
}

/// When a subtask is merged into another, that one is used as often and as long as
/// the two were together.
pub proof fn merged_subtasks_add_up(
    m: StoreModel,
    id: i64,
    name: Seq<char>,
    t: int,
    now: Timestamp,
)
    requires
        m.wf(),
        m.has_subtask(id),
        0 <= t < m.subtasks.len(),
        m.subtasks[t].id != id,
        m.subtasks[t].name_key == subtask_key(name),
        subtask_name(name).len() > 0,
    ensures
        ({
            let after = m.renamed_subtask(id, name)->Ok_0;
            let target = m.subtasks[t].id;
            let merged = after.entries_of_subtask(target, now);
            &&& total_seconds(merged) == total_seconds(m.entries_of_subtask(target, now))
                + total_seconds(m.entries_of_subtask(id, now))
            &&& merged.len() == m.entries_of_subtask(target, now).len() + m.entries_of_subtask(
                id,
                now,
            ).len()
        }),
{
    let after = m.renamed_subtask(id, name)->Ok_0;
    let target = m.subtasks[t].id;
    let test = another_has_key(subtask_key(name), id);
    assert forall|j: int| 0 <= j < t implies !test(#[trigger] m.subtasks[j]) by {
        assert(m.subtasks[j].name_key != m.subtasks[t].name_key);
    }
    lemma_position_found(m.subtasks, test, t);
    assert(after.entries == m.entries.map_values(moving(id, target)));
    lemma_usage_is_a_sum(after, after.entries, target, now);
    lemma_usage_is_a_sum(m, m.entries, target, now);
    lemma_usage_is_a_sum(m, m.entries, id, now);
    lemma_moved_entries_add_up(m.entries, id, target, now);
}

} // verus!
