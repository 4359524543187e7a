//! Reports: the entries of a period, and the time they add up to.

use vstd::prelude::*;
use crate::clock::{
    elapsed_seconds_in_range_at, entry_seconds_in, format_utc, utc_now, utc_text, ReportRange,
    Timestamp, LONGEST_SPAN,
};
use crate::entries::{newest, recent_entries_inner_at, seconds_or_zero, show_entry, sort_newest};
use crate::error::TrackerError;
use crate::lists::{
    lemma_filter_push, lemma_position_found, models, models_of_push, position,
    position_is_the_first, select_by,
};
use crate::records::{TimeEntry, TimeEntryModel, TimeEntryView, TimeEntryViewModel};
use crate::store::{Store, StoreModel};
use crate::text::{is_before, text_before};
use crate::timers::lemma_picked_are_recorded;

verus! {

// ---------------------------------------------------------------------------
// The entries of a report
// ---------------------------------------------------------------------------

/// How many entries a report over everything covers at most: the newest ones.
pub const REPORT_LIMIT: i64 = 10_000;

/// Whether an entry's written times reach into a range; one that runs lasts until
/// now.
pub open spec fn reaches_into(range: ReportRange, now: Timestamp) -> spec_fn(
    TimeEntryModel,
) -> bool {
    |entry: TimeEntryModel|
        {
            let ended_at = match entry.ended_at {
                Some(ended_at) => ended_at,
                None => utc_text(now),
            };
            text_before(entry.started_at, utc_text(range.end))
                && !text_before(ended_at, utc_text(range.start))
        }
}

/// Whether the times of an entry cannot be read.
pub open spec fn is_unreadable(range: ReportRange, now: Timestamp) -> spec_fn(
    TimeEntryModel,
) -> bool {
    |entry: TimeEntryModel| entry_seconds_in(entry.started_at, entry.ended_at, range, now) is Err
}

/// Whether at least a second of an entry falls in a range.
pub open spec fn lasts_in(range: ReportRange, now: Timestamp) -> spec_fn(TimeEntryModel) -> bool {
    |entry: TimeEntryModel|
        entry_seconds_in(entry.started_at, entry.ended_at, range, now) matches Ok(seconds)
            && seconds > 0
}

impl StoreModel {
    /// An entry as a report over a range shows it: with the time that falls in
    /// the range.
    pub open spec fn shows_in(self, range: ReportRange, now: Timestamp) -> spec_fn(
        TimeEntryModel,
    ) -> TimeEntryViewModel {
        |entry: TimeEntryModel|
            TimeEntryViewModel {
                duration_seconds: seconds_or_zero(
                    entry_seconds_in(entry.started_at, entry.ended_at, range, now),
                ),
                ..self.entry_view(entry, now)
            }
    }

    /// The entries of a report, the newest first: over everything, or those that
    /// last at least a second in a range, with the time that falls in it.
    pub open spec fn report_entries(self, range: Option<ReportRange>, now: Timestamp) -> Result<
        Seq<TimeEntryViewModel>,
        TrackerError,
    > {
        match range {
            None => Ok(self.recent_entries(REPORT_LIMIT, now)),
            Some(range) => {
                let reached = newest(self.entries.filter(reaches_into(range, now)));
                match position(reached, is_unreadable(range, now)) {
                    Some(i) => Err(
                        TrackerError::Time(
                            entry_seconds_in(
                                reached[i].started_at,
                                reached[i].ended_at,
                                range,
                                now,
                            )->Err_0,
                        ),
                    ),
                    None => Ok(
                        reached.filter(lasts_in(range, now)).map_values(self.shows_in(range, now)),
                    ),
                }
            },
        }
    }
}

/// Whether a report's answer is the expected one.
pub open spec fn reported<T: View>(
    result: Result<Vec<T>, TrackerError>,
    expected: Result<Seq<T::V>, TrackerError>,
) -> bool {
    match (result, expected) {
        (Ok(rows), Ok(models_of_rows)) => models(rows@) == models_of_rows,
        (Err(error), Err(refusal)) => error == refusal,
        _ => false,
    }
}

/// The entries of a report over a range, as of a given instant.
fn range_entries(
    store: &Store,
    range: &ReportRange,
    now: Timestamp,
) -> (result: Result<Vec<TimeEntryView>, TrackerError>)
    requires
        store@.wf(),
        now.valid(),
        range.start.valid(),
        range.end.valid(),
    ensures
        reported(result, store@.report_entries(Some(*range), now)),
        result matches Ok(views) ==> forall|k: int|
            0 <= k < views@.len() ==> 0 <= (#[trigger] views@[k]).duration_seconds <= LONGEST_SPAN,
{
    broadcast use models_of_push;

    let start = format_utc(range.start);
    let end = format_utc(range.end);
    let present = format_utc(now);
    let passes = |entry: &TimeEntry| -> (answer: bool)
        ensures
            answer == reaches_into(*range, now)(entry@),
    {
        let ended_at = match &entry.ended_at {
            Some(ended_at) => ended_at.as_str(),
            None => present.as_str(),
        };
        is_before(entry.started_at.as_str(), end.as_str()) && !is_before(ended_at, start.as_str())
    };
    let sorted = sort_newest(
        select_by(&store.entries, passes, Ghost(reaches_into(*range, now))),
    );
    let ghost reached = newest(store@.entries.filter(reaches_into(*range, now)));
    let ghost fails = is_unreadable(*range, now);
    let ghost lasts = lasts_in(*range, now);
    let ghost shows = store@.shows_in(*range, now);
    proof {
        lemma_picked_are_recorded(store@.entries, reaches_into(*range, now));
        reveal(Seq::filter);
    }
    let mut views: Vec<TimeEntryView> = Vec::new();
    assert(models(views@) == reached.take(0).filter(lasts).map_values(shows));
    for i in 0..sorted.len()
        invariant
            store@.wf(),
            now.valid(),
            range.start.valid(),
            range.end.valid(),
            models(sorted@) == reached,
            reached == newest(store@.entries.filter(reaches_into(*range, now))),
            fails == is_unreadable(*range, now),
            lasts == lasts_in(*range, now),
            shows == store@.shows_in(*range, now),
            forall|k: int|
                0 <= k < reached.len() ==> store@.entries.contains(#[trigger] reached[k]),
            forall|k: int| 0 <= k < i ==> !fails(#[trigger] reached[k]),
            models(views@) == reached.take(i as int).filter(lasts).map_values(shows),
            forall|k: int|
                0 <= k < views@.len() ==> 0 <= (#[trigger] views@[k]).duration_seconds
                    <= LONGEST_SPAN,
    {
        let entry = sorted[i];
        let ghost before = reached.take(i as int);
        let ghost item = reached[i as int];
        proof {
            assert(entry@ == item);
            assert(store@.entries.contains(item));
            assert(reached.take(i + 1) == before.push(item));
            lemma_filter_push(before, item, lasts);
            assert(before.filter(lasts).push(item).map_values(shows) == before.filter(
                lasts,
            ).map_values(shows).push(shows(item)));
        }
        let ended_at = match &entry.ended_at {
            Some(ended_at) => Some(ended_at.as_str()),
            None => None,
        };
        let started_at = entry.started_at.as_str();
        let seconds = match elapsed_seconds_in_range_at(started_at, ended_at, range, now) {
            Ok(seconds) => seconds,
            Err(error) => {
                proof {
                    lemma_position_found(reached, fails, i as int);
                }
                return Err(error);
            },
        };
        if seconds > 0 {
            let mut view = show_entry(store, entry, now);
            view.duration_seconds = seconds;
            assert(view@ == shows(item));
            views.push(view);
        }
    }
    proof {
        position_is_the_first(reached, fails);
        assert(reached.take(reached.len() as int) == reached);
    }
    Ok(views)
}

/// The entries of a report, as of a given instant.
pub fn report_entries_inner_at(
    store: &Store,
    range: Option<&ReportRange>,
    now: Timestamp,
) -> (result: Result<Vec<TimeEntryView>, TrackerError>)
    requires
        store@.wf(),
        now.valid(),
        range matches Some(range) ==> range.start.valid() && range.end.valid(),
    ensures
        reported(result, store@.report_entries(range_of(range), now)),
        result matches Ok(views) ==> forall|k: int|
            0 <= k < views@.len() ==> 0 <= (#[trigger] views@[k]).duration_seconds <= LONGEST_SPAN,
{
    match range {
        Some(range) => range_entries(store, range, now),
        None => Ok(recent_entries_inner_at(store, REPORT_LIMIT, now)),
    }
}

/// A borrowed range in a contract.
pub open spec fn range_of(range: Option<&ReportRange>) -> Option<ReportRange> {
    match range {
        Some(range) => Some(*range),
        None => None,
    }
}

/// The entries of a report, as of now.
pub fn report_entries_inner(
    store: &Store,
    range: Option<&ReportRange>,
) -> (result: Result<Vec<TimeEntryView>, TrackerError>)
    requires
        store@.wf(),
        range matches Some(range) ==> range.start.valid() && range.end.valid(),
    ensures
        exists|now: Timestamp| #[trigger]
            now.from_clock() && reported(result, store@.report_entries(range_of(range), now)),
{
    let now = utc_now();
    report_entries_inner_at(store, range, now)
}

} // verus!
