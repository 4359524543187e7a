//! Recorded entries as they are shown.

use vstd::prelude::*;
use crate::clock::{elapsed_seconds_at, entry_seconds, utc_now, Timestamp, LONGEST_SPAN};
use crate::error::{DatabaseFault, TimeFault, TrackerError};
use crate::lists::{
    can_sort, each_of, models, models_of_push, sort_by, sorting_orders_the_same_items,
    stable_sorted,
};
use crate::records::{TimeEntry, TimeEntryModel, TimeEntryView, TimeEntryViewModel};
use crate::store::{
    answered, find_entry, find_subtask, find_task, positions_find_rows, positions_find_subtasks,
    Store, StoreModel,
};
use crate::text::{
    is_before, same_text, text_before, text_order_is_irreflexive, text_order_is_total,
    text_order_is_transitive,
};

verus! {

// ---------------------------------------------------------------------------
// Order
// ---------------------------------------------------------------------------

/// Entries that started later come first; of those that started together, the
/// one that was recorded later.
pub open spec fn newest_first() -> spec_fn(TimeEntryModel, TimeEntryModel) -> bool {
    |a: TimeEntryModel, b: TimeEntryModel|
        text_before(b.started_at, a.started_at) || (a.started_at == b.started_at && a.id > b.id)
}

/// Entries can be sorted by their start.
pub proof fn newest_first_can_sort()
    ensures
        can_sort(newest_first()),
{
    let before = newest_first();
    assert forall|a: TimeEntryModel, b: TimeEntryModel| #[trigger] before(a, b) implies !before(
        b,
        a,
    ) by {
        text_order_is_irreflexive(a.started_at);
        if text_before(a.started_at, b.started_at) && text_before(b.started_at, a.started_at) {
            text_order_is_transitive(a.started_at, b.started_at, a.started_at);
        }
    }
    assert forall|a: TimeEntryModel, b: TimeEntryModel, c: TimeEntryModel| #[trigger]
        before(a, c) && !(#[trigger] before(a, b)) implies before(b, c) by {
        text_order_is_total(a.started_at, b.started_at);
        if text_before(a.started_at, b.started_at) && text_before(c.started_at, a.started_at) {
            text_order_is_transitive(c.started_at, a.started_at, b.started_at);
        }
    }
}

/// Entries, the newest first.
pub open spec fn newest(entries: Seq<TimeEntryModel>) -> Seq<TimeEntryModel> {
    stable_sorted(entries, newest_first())
}

/// Sorts entries, the newest first.
pub(crate) fn sort_newest<'a>(entries: Vec<&'a TimeEntry>) -> (result: Vec<&'a TimeEntry>)
    ensures
        models(result@) == newest(models(entries@)),
{
    proof {
        newest_first_can_sort();
    }
    let comes_before = |a: &&'a TimeEntry, b: &&'a TimeEntry| -> (answer: bool)
        ensures
            answer == newest_first()(a@, b@),
    {
        is_before(b.started_at.as_str(), a.started_at.as_str()) || (same_text(
            a.started_at.as_str(),
            b.started_at.as_str(),
        ) && a.id > b.id)
    };
    sort_by(entries, comes_before, Ghost(newest_first()))
}

// ---------------------------------------------------------------------------
// Views
// ---------------------------------------------------------------------------

/// A number of seconds as far as it can be held, or none where the times could not
/// be read.
pub open spec fn seconds_or_zero(seconds: Result<int, TimeFault>) -> i64 {
    match seconds {
        Ok(seconds) => if seconds <= i64::MAX {
            seconds as i64
        } else {
            i64::MAX
        },
        Err(_) => 0,
    }
}

impl StoreModel {
    /// An entry as it is shown: with the names it refers to, and with the time it
    /// lasts, which is zero where its times cannot be read.
    pub open spec fn entry_view(self, entry: TimeEntryModel, now: Timestamp) -> TimeEntryViewModel {
        let task = self.tasks[self.task_at(entry.task_id)->Some_0];
        TimeEntryViewModel {
            id: entry.id,
            task_id: entry.task_id,
            task_name: task.name,
            subtask_id: entry.subtask_id,
            subtask_name: match entry.subtask_id {
                Some(id) => Some(self.subtasks[self.subtask_at(id)->Some_0].name),
                None => None,
            },
            github_kind: task.github_kind,
            github_reference: task.github_reference,
            started_at: entry.started_at,
            ended_at: entry.ended_at,
            duration_seconds: seconds_or_zero(entry_seconds(entry.started_at, entry.ended_at, now)),
            note: entry.note,
        }
    }

    /// How entries are shown.
    pub open spec fn shows(self, now: Timestamp) -> spec_fn(TimeEntryModel) -> TimeEntryViewModel {
        |entry: TimeEntryModel| self.entry_view(entry, now)
    }

    /// The entry with an identifier as it is shown.
    pub open spec fn entry_view_by_id(self, id: i64, now: Timestamp) -> Result<
        TimeEntryViewModel,
        TrackerError,
    > {
        match self.entry_at(id) {
            Some(i) => Ok(self.entry_view(self.entries[i], now)),
            None => Err(TrackerError::Database(DatabaseFault::NoRows)),
        }
    }

    /// The entries as they are shown, the newest first; no more than the limit,
    /// and all of them where the limit is negative.
    pub open spec fn recent_entries(self, limit: i64, now: Timestamp) -> Seq<TimeEntryViewModel> {
        let sorted = newest(self.entries);
        let kept = if 0 <= limit < sorted.len() {
            sorted.take(limit as int)
        } else {
            sorted
        };
        kept.map_values(self.shows(now))
    }
}

/// An entry as it is shown at a given instant.
pub fn show_entry(store: &Store, entry: &TimeEntry, now: Timestamp) -> (result: TimeEntryView)
    requires
        store@.resolves(entry@),
        now.valid(),
    ensures
        result@ == store@.entry_view(entry@, now),
        0 <= result.duration_seconds <= LONGEST_SPAN,
{
    proof {
        positions_find_rows(store@, entry.task_id);
    }
    let task = &store.tasks[find_task(store, entry.task_id).unwrap()];
    let subtask_name = match entry.subtask_id {
        Some(id) => {
            proof {
                positions_find_subtasks(store@, id);
            }
            let subtask = &store.subtasks[find_subtask(store, id).unwrap()];
            Some(subtask.name.clone())
        },
        None => None,
    };
    let ended_at = match &entry.ended_at {
        Some(text) => Some(text.as_str()),
        None => None,
    };
    let duration_seconds = match elapsed_seconds_at(entry.started_at.as_str(), ended_at, now) {
        Ok(seconds) => seconds,
        Err(_) => 0,
    };
    TimeEntryView {
        id: entry.id,
        task_id: entry.task_id,
        task_name: task.name.clone(),
        subtask_id: entry.subtask_id,
        subtask_name,
        github_kind: task.github_kind.clone(),
        github_reference: task.github_reference.clone(),
        started_at: entry.started_at.clone(),
        ended_at: entry.ended_at.clone(),
        duration_seconds,
        note: entry.note.clone(),
    }
}

/// No entry is shown with a negative time.
pub proof fn shown_time_is_not_negative(m: StoreModel, entry: TimeEntryModel, now: Timestamp)
    ensures
        m.entry_view(entry, now).duration_seconds >= 0,
{
}

/// The entry with an identifier as it is shown at a given instant.
pub fn entry_view_by_id_at(
    store: &Store,
    id: i64,
    now: Timestamp,
) -> (result: Result<TimeEntryView, TrackerError>)
    requires
        store@.wf(),
        now.valid(),
    ensures
        answered(result, store@.entry_view_by_id(id, now)),
{
    match find_entry(store, id) {
        Some(i) => {
            assert(store@.resolves(store@.entries[i as int]));
            Ok(show_entry(store, &store.entries[i], now))
        },
        None => Err(TrackerError::Database(DatabaseFault::NoRows)),
    }
}

/// The entry with an identifier as it is shown now.
pub fn entry_view_by_id(store: &Store, id: i64) -> (result: Result<TimeEntryView, TrackerError>)
    requires
        store@.wf(),
    ensures
        exists|now: Timestamp| #[trigger]
            now.from_clock() && answered(result, store@.entry_view_by_id(id, now)),
{
    let now = utc_now();
    entry_view_by_id_at(store, id, now)
}

/// The newest entries as they are shown at a given instant.
pub fn recent_entries_inner_at(
    store: &Store,
    limit: i64,
    now: Timestamp,
) -> (result: Vec<TimeEntryView>)
    requires
        store@.wf(),
        now.valid(),
    ensures
        models(result@) == store@.recent_entries(limit, now),
        forall|k: int|
            0 <= k < result@.len() ==> 0 <= (#[trigger] result@[k]).duration_seconds
                <= LONGEST_SPAN,
{
    broadcast use models_of_push;

    let sorted = sort_newest(each_of(&store.entries));
    let ghost all = newest(store@.entries);
    proof {
        newest_are_recorded(store@.entries);
    }
    let count = if 0 <= limit && (limit as u64) < (sorted.len() as u64) {
        limit as usize
    } else {
        sorted.len()
    };
    let ghost kept = if 0 <= limit < all.len() {
        all.take(limit as int)
    } else {
        all
    };
    let mut views: Vec<TimeEntryView> = Vec::new();
    let ghost shown = kept.map_values(store@.shows(now));
    assert(models(views@) == shown.take(0));
    for i in 0..count
        invariant
            store@.wf(),
            now.valid(),
            count == kept.len() <= sorted@.len(),
            models(sorted@) == all,
            forall|k: int| 0 <= k < count ==> kept[k] == all[k],
            forall|k: int| 0 <= k < all.len() ==> store@.entries.contains(#[trigger] all[k]),
            shown == kept.map_values(store@.shows(now)),
            models(views@) == shown.take(i as int),
            forall|k: int|
                0 <= k < views@.len() ==> 0 <= (#[trigger] views@[k]).duration_seconds
                    <= LONGEST_SPAN,
    {
        assert(sorted@[i as int]@ == all[i as int]);
        assert(store@.entries.contains(all[i as int]));
        views.push(show_entry(store, sorted[i], now));
        assert(shown.take(i + 1) == shown.take(i as int).push(shown[i as int]));
    }
    assert(shown.take(count as int) == shown);
    views
}

/// The newest entries as they are shown now.
pub fn recent_entries_inner(store: &Store, limit: i64) -> (result: Vec<TimeEntryView>)
    requires
        store@.wf(),
    ensures
        exists|now: Timestamp| #[trigger]
            now.from_clock() && models(result@) == store@.recent_entries(limit, now),
{
    let now = utc_now();
    recent_entries_inner_at(store, limit, now)
}

/// Sorted entries are recorded ones, each as often as it was.
pub proof fn newest_are_recorded(entries: Seq<TimeEntryModel>)
    ensures
        newest(entries).len() == entries.len(),
        forall|k: int| 0 <= k < entries.len() ==> entries.contains(#[trigger] newest(entries)[k]),
{
    newest_first_can_sort();
    sorting_orders_the_same_items(entries, newest_first());
    let sorted = newest(entries);
    broadcast use vstd::seq_lib::group_to_multiset_ensures;

    assert forall|k: int| 0 <= k < entries.len() implies entries.contains(
        #[trigger] sorted[k],
    ) by {
        assert(sorted.contains(sorted[k]));
        assert(sorted.to_multiset().count(sorted[k]) > 0);
        assert(entries.to_multiset().count(sorted[k]) > 0);
    }
}

/// The number of recent entries to show: what was asked for, from 1 to 200, and
/// 20 where nothing was.
pub fn recent_limit(limit: Option<i64>) -> (result: i64)
    ensures
        result == match limit {
            None => 20,
            Some(n) => if n < 1 {
                1
            } else if n > 200 {
                200
            } else {
                n as int
            },
        },
{
    match limit {
        None => 20,
        Some(n) => if n < 1 {
            1
        } else if n > 200 {
            200
        } else {
            n
        },
    }
}

} // verus!
