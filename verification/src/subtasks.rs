//! The subtasks that every task shares.

use vstd::prelude::*;
use crate::clock::{format_utc, utc_now, utc_text, Timestamp};
use crate::entries::{entry_view_by_id_at, show_entry, shown_time_is_not_negative};
use crate::error::{DatabaseFault, TrackerError};
use crate::lists::{
    can_sort, each_of, find_by, lemma_filter_push, lemma_position_found, models, models_of_push,
    models_of_update, position, position_is_the_first, sort_by, sorted_items_were_there,
    stable_sorted,
};
use crate::names::{
    normalize_subtask_name, stored_names_are_stable, subtask_key, subtask_name, subtask_name_key,
};
use crate::records::{
    CreateSubtaskInput, RenameSubtaskInput, SetSubtaskArchivedInput, Subtask, SubtaskModel,
    SubtaskRow, SubtaskRowModel, SubtaskView, SubtaskViewModel, TimeEntryModel, TimeEntryView,
    TimeEntryViewModel, UpdateEntrySubtaskInput,
};
use crate::reports::reported;
use crate::store::{
    carried_out, entry_has_id, find_entry, find_subtask, lemma_entries_fit, positions_find_subtasks,
    upsert_subtask, Store, StoreModel,
};
use crate::summaries::{can_hold, lemma_total_push, total_seconds};
use crate::text::{
    is_before, opt_text, same_text, text_before, text_order_is_irreflexive, text_order_is_total,
    text_order_is_transitive,
};
use crate::timers::{subtask_id_of, upsert_named_subtask};

verus! {

// ---------------------------------------------------------------------------
// Listing
// ---------------------------------------------------------------------------

/// Subtasks come in the order of their names.
pub open spec fn by_name() -> spec_fn(SubtaskRowModel, SubtaskRowModel) -> bool {
    |a: SubtaskRowModel, b: SubtaskRowModel| text_before(a.name, b.name)
}

/// Subtasks can be sorted by name.
pub proof fn by_name_can_sort()
    ensures
        can_sort(by_name()),
{
    let before = by_name();
    assert forall|a: SubtaskRowModel, b: SubtaskRowModel| #[trigger] before(a, b) implies !before(
        b,
        a,
    ) by {
        text_order_is_irreflexive(a.name);
        if text_before(b.name, a.name) {
            text_order_is_transitive(a.name, b.name, a.name);
        }
    }
    assert forall|a: SubtaskRowModel, b: SubtaskRowModel, c: SubtaskRowModel| #[trigger]
        before(a, c) && !(#[trigger] before(a, b)) implies before(b, c) by {
        text_order_is_total(a.name, b.name);
        if text_before(b.name, a.name) {
            text_order_is_transitive(b.name, a.name, c.name);
        }
    }
}

/// How subtasks are shown.
pub open spec fn shows_subtask() -> spec_fn(SubtaskRowModel) -> SubtaskModel {
    |subtask: SubtaskRowModel| subtask.shown()
}

/// Whether an entry has a subtask.
pub open spec fn of_subtask(id: i64) -> spec_fn(TimeEntryModel) -> bool {
    |entry: TimeEntryModel| entry.subtask_id == Some(id)
}

impl StoreModel {
    /// The subtasks in the order of their names.
    pub open spec fn all_subtasks(self) -> Seq<SubtaskModel> {
        stable_sorted(self.subtasks, by_name()).map_values(shows_subtask())
    }

    /// All entries of a subtask as they are shown.
    pub open spec fn entries_of_subtask(self, id: i64, now: Timestamp) -> Seq<TimeEntryViewModel> {
        self.entries.filter(of_subtask(id)).map_values(self.shows(now))
    }

    /// A subtask with how often and how long entries use it.
    pub open spec fn with_usage(self, now: Timestamp) -> spec_fn(
        SubtaskRowModel,
    ) -> SubtaskViewModel {
        |subtask: SubtaskRowModel|
            SubtaskViewModel {
                id: subtask.id,
                name: subtask.name,
                archived_at: subtask.archived_at,
                created_at: subtask.created_at,
                entry_count: self.entries_of_subtask(subtask.id, now).len() as i64,
                total_seconds: total_seconds(self.entries_of_subtask(subtask.id, now)) as i64,
            }
    }

    /// Whether the number and the time of the entries of every subtask can be held.
    pub open spec fn usage_fits(self, now: Timestamp) -> bool {
        forall|i: int|
            0 <= i < self.subtasks.len() ==> can_hold(
                self.entries_of_subtask((#[trigger] self.subtasks[i]).id, now),
            )
    }

    /// The subtasks in the order of their names, with how often and how long they
    /// are used.
    pub open spec fn list_subtasks(self, now: Timestamp) -> Result<
        Seq<SubtaskViewModel>,
        TrackerError,
    > {
        if self.usage_fits(now) {
            Ok(stable_sorted(self.subtasks, by_name()).map_values(self.with_usage(now)))
        } else {
            Err(TrackerError::TotalOutOfRange)
        }
    }
}

/// The subtasks in the order of their names.
fn subtasks_by_name(store: &Store) -> (result: Vec<&SubtaskRow>)
    ensures
        models(result@) == stable_sorted(store@.subtasks, by_name()),
{
    let comes_before = |a: &&SubtaskRow, b: &&SubtaskRow| -> (answer: bool)
        ensures
            answer == by_name()(a@, b@),
    {
        is_before(a.name.as_str(), b.name.as_str())
    };
    proof {
        by_name_can_sort();
    }
    sort_by(each_of(&store.subtasks), comes_before, Ghost(by_name()))
}

/// Every subtask, in the order of their names.
pub fn all_subtasks(store: &Store) -> (result: Vec<Subtask>)
    ensures
        models(result@) == store@.all_subtasks(),
{
    broadcast use models_of_push;

    let sorted = subtasks_by_name(store);
    let ghost shown = store@.all_subtasks();
    let mut subtasks: Vec<Subtask> = Vec::new();
    assert(models(subtasks@) == shown.take(0));
    for i in 0..sorted.len()
        invariant
            models(sorted@).map_values(shows_subtask()) == shown,
            models(subtasks@) == shown.take(i as int),
    {
        assert(sorted@[i as int]@ == models(sorted@)[i as int]);
        subtasks.push(sorted[i].shown());
        assert(shown.take(i + 1) == shown.take(i as int).push(shown[i as int]));
    }
    assert(shown.take(shown.len() as int) == shown);
    subtasks
}

/// The shown entries of a subtask among the first ones are no more, and add up to
/// no more, than among all of them.
proof fn lemma_usage_grows(m: StoreModel, s: Seq<TimeEntryModel>, n: int, id: i64, now: Timestamp)
    requires
        0 <= n <= s.len(),
    ensures
        ({
            let some = s.take(n).filter(of_subtask(id)).map_values(m.shows(now));
            let all = s.filter(of_subtask(id)).map_values(m.shows(now));
            0 <= total_seconds(some) <= total_seconds(all) && some.len() <= all.len() && some.len()
                <= n
        }),
    decreases s.len(),
{
    let test = of_subtask(id);
    let shows = m.shows(now);
    reveal(Seq::filter);
    if n < s.len() || n > 0 {
        let rest = s.drop_last();
        let item = s.last();
        let kept = rest.filter(test);
        lemma_usage_grows(m, rest, if n < s.len() { n } else { n - 1 }, id, now);
        assert(s == rest.push(item));
        lemma_filter_push(rest, item, test);
        assert(kept.push(item).map_values(shows) == kept.map_values(shows).push(shows(item)));
        lemma_total_push(kept.map_values(shows), shows(item));
        shown_time_is_not_negative(m, item, now);
        if n < s.len() {
            assert(rest.take(n) == s.take(n));
        } else {
            assert(rest.take(n - 1) == rest);
            assert(s.take(n) == s);
        }
    } else {
        assert(s.take(n) == s);
    }
}

/// A subtask with how often and how long entries use it.
fn show_usage(
    store: &Store,
    subtask: &SubtaskRow,
    now: Timestamp,
) -> (result: Result<SubtaskView, TrackerError>)
    requires
        store@.wf(),
        now.valid(),
    ensures
        match result {
            Ok(view) => can_hold(store@.entries_of_subtask(subtask.id, now)) && view@
                == store@.with_usage(now)(subtask@),
            Err(error) => !can_hold(store@.entries_of_subtask(subtask.id, now)) && error
                == TrackerError::TotalOutOfRange,
        },
{
    let ghost all = store@.entries;
    let ghost test = of_subtask(subtask.id);
    let ghost shows = store@.shows(now);
    let mut entry_count: i64 = 0;
    let mut total: i64 = 0;
    proof {
        reveal(Seq::filter);
        assert(all.take(0).filter(test).map_values(shows) == Seq::<TimeEntryViewModel>::empty());
    }
    for i in 0..store.entries.len()
        invariant
            store@.wf(),
            now.valid(),
            all == store@.entries,
            test == of_subtask(subtask.id),
            shows == store@.shows(now),
            0 <= total,
            0 <= entry_count,
            entry_count == all.take(i as int).filter(test).map_values(shows).len(),
            total == total_seconds(all.take(i as int).filter(test).map_values(shows)),
    {
        let entry = &store.entries[i];
        let ghost kept = all.take(i as int).filter(test);
        let ghost item = all[i as int];
        proof {
            assert(entry@ == item);
            assert(store@.resolves(item));
            assert(all.take(i + 1) == all.take(i as int).push(item));
            lemma_filter_push(all.take(i as int), item, test);
            assert(kept.push(item).map_values(shows) == kept.map_values(shows).push(shows(item)));
            lemma_total_push(kept.map_values(shows), shows(item));
            lemma_usage_grows(store@, all, i + 1, subtask.id, now);
        }
        if entry.subtask_id == Some(subtask.id) {
            let seconds: i64 = show_entry(store, entry, now).duration_seconds;
            if seconds > i64::MAX - total || entry_count == i64::MAX {
                return Err(TrackerError::TotalOutOfRange);
            }
            entry_count = entry_count + 1;
            total = total + seconds;
        }
    }
    assert(all.take(all.len() as int) == all);
    Ok(
        SubtaskView {
            id: subtask.id,
            name: subtask.name.clone(),
            archived_at: subtask.archived_at.clone(),
            created_at: subtask.created_at.clone(),
            entry_count,
            total_seconds: total,
        },
    )
}

/// Every subtask, with how much time has been recorded against it as of a given
/// instant.
pub fn list_subtasks_inner_at(
    store: &Store,
    now: Timestamp,
) -> (result: Result<Vec<SubtaskView>, TrackerError>)
    requires
        store@.wf(),
        now.valid(),
    ensures
        reported(result, store@.list_subtasks(now)),
{
    broadcast use models_of_push;

    let mut views: Vec<SubtaskView> = Vec::new();
    let sorted = subtasks_by_name(store);
    let ghost all = stable_sorted(store@.subtasks, by_name());
    let ghost shown = all.map_values(store@.with_usage(now));
    proof {
        by_name_can_sort();
        sorted_items_were_there(store@.subtasks, by_name());
        assert(models(views@) == shown.take(0));
    }
    for i in 0..sorted.len()
        invariant
            store@.wf(),
            now.valid(),
            all == models(sorted@),
            all == stable_sorted(store@.subtasks, by_name()),
            forall|row: SubtaskRowModel| #[trigger]
                all.contains(row) <==> store@.subtasks.contains(row),
            shown == all.map_values(store@.with_usage(now)),
            models(views@) == shown.take(i as int),
            forall|k: int|
                0 <= k < i ==> can_hold(store@.entries_of_subtask((#[trigger] all[k]).id, now)),
    {
        assert(sorted@[i as int]@ == all[i as int]);
        match show_usage(store, sorted[i], now) {
            Ok(view) => {
                views.push(view);
                assert(shown.take(i + 1) == shown.take(i as int).push(shown[i as int]));
            },
            Err(error) => {
                proof {
                    assert(all.contains(all[i as int]));
                    let k = choose|k: int|
                        0 <= k < store@.subtasks.len() && store@.subtasks[k] == all[i as int];
                    assert(!can_hold(store@.entries_of_subtask(store@.subtasks[k].id, now)));
                }
                return Err(error);
            },
        }
    }
    proof {
        assert(shown.take(shown.len() as int) == shown);
        assert forall|i: int| 0 <= i < store@.subtasks.len() implies can_hold(
            store@.entries_of_subtask((#[trigger] store@.subtasks[i]).id, now),
        ) by {
            assert(store@.subtasks.contains(store@.subtasks[i]));
            assert(all.contains(store@.subtasks[i]));
            let k = choose|k: int| 0 <= k < all.len() && all[k] == store@.subtasks[i];
            assert(can_hold(store@.entries_of_subtask(all[k].id, now)));
        }
    }
    Ok(views)
}

/// Every subtask, with how much time has been recorded against it until now.
pub fn list_subtasks_inner(store: &Store) -> (result: Result<Vec<SubtaskView>, TrackerError>)
    requires
        store@.wf(),
    ensures
        exists|now: Timestamp| #[trigger]
            now.from_clock() && reported(result, store@.list_subtasks(now)),
{
    let now = utc_now();
    list_subtasks_inner_at(store, now)
}

// ---------------------------------------------------------------------------
// Creating
// ---------------------------------------------------------------------------

impl StoreModel {
    /// Finds or creates a subtask, and lists them all.
    pub open spec fn create_subtask(self, name: Seq<char>, now: Timestamp) -> (
        StoreModel,
        Result<Seq<SubtaskViewModel>, TrackerError>,
    ) {
        match self.upsert_subtask(name, utc_text(now)) {
            Ok(done) => (done.0, done.0.list_subtasks(now)),
            Err(error) => (self, Err(error)),
        }
    }
}

/// Finds or creates a subtask at a given instant, and lists them all.
pub fn create_subtask_conn_at(
    store: &mut Store,
    input: CreateSubtaskInput,
    now: Timestamp,
) -> (result: Result<Vec<SubtaskView>, TrackerError>)
    requires
        old(store)@.wf(),
        now.valid(),
    ensures
        final(store)@ == old(store)@.create_subtask(input.name@, now).0,
        reported(result, old(store)@.create_subtask(input.name@, now).1),
        final(store)@.wf(),
{
    let present = format_utc(now);
    match upsert_subtask(store, input.name.as_str(), present.as_str()) {
        Ok(_) => list_subtasks_inner_at(store, now),
        Err(error) => Err(error),
    }
}

/// Finds or creates a subtask now, and lists them all.
pub fn create_subtask_conn(
    store: &mut Store,
    input: CreateSubtaskInput,
) -> (result: Result<Vec<SubtaskView>, TrackerError>)
    requires
        old(store)@.wf(),
    ensures
        exists|now: Timestamp| #[trigger]
            now.from_clock() && final(store)@ == old(store)@.create_subtask(input.name@, now).0
                && reported(result, old(store)@.create_subtask(input.name@, now).1),
        final(store)@.wf(),
{
    let now = utc_now();
    create_subtask_conn_at(store, input, now)
}

// ---------------------------------------------------------------------------
// Renaming
// ---------------------------------------------------------------------------

/// Whether a subtask other than the one with an identifier has a key.
pub open spec fn another_has_key(key: Seq<char>, id: i64) -> spec_fn(SubtaskRowModel) -> bool {
    |subtask: SubtaskRowModel| subtask.name_key == key && subtask.id != id
}

/// An entry with another subtask, where it has the one.
pub open spec fn moving(from: i64, to: i64) -> spec_fn(TimeEntryModel) -> TimeEntryModel {
    |entry: TimeEntryModel|
        if entry.subtask_id == Some(from) {
            TimeEntryModel { subtask_id: Some(to), ..entry }
        } else {
            entry
        }
}

impl StoreModel {
    /// Moves the entries of one subtask to another.
    pub open spec fn move_entries(self, from: i64, to: i64) -> StoreModel {
        StoreModel { entries: self.entries.map_values(moving(from, to)), ..self }
    }

    /// Removes the subtask with an identifier.
    pub open spec fn remove_subtask(self, id: i64) -> StoreModel {
        match self.subtask_at(id) {
            Some(i) => StoreModel { subtasks: self.subtasks.remove(i), ..self },
            None => self,
        }
    }

    /// Changes the subtask with an identifier.
    pub open spec fn set_subtask(self, id: i64, subtask: SubtaskRowModel) -> StoreModel {
        match self.subtask_at(id) {
            Some(i) => StoreModel { subtasks: self.subtasks.update(i, subtask), ..self },
            None => self,
        }
    }

    /// Gives a subtask another name. Where another subtask has the name, the two
    /// become one: its entries move there, and it is removed.
    pub open spec fn renamed_subtask(self, id: i64, name: Seq<char>) -> Result<
        StoreModel,
        TrackerError,
    > {
        if subtask_name(name).len() == 0 {
            Err(TrackerError::MissingSubtaskName)
        } else {
            match position(self.subtasks, another_has_key(subtask_key(name), id)) {
                Some(i) => Ok(self.move_entries(id, self.subtasks[i].id).remove_subtask(id)),
                None => Ok(
                    self.set_subtask(
                        id,
                        SubtaskRowModel {
                            name: subtask_name(name),
                            name_key: subtask_key(name),
                            ..self.subtasks[self.subtask_at(id)->Some_0]
                        },
                    ),
                ),
            }
        }
    }

    /// Gives a subtask another name, and lists them all.
    pub open spec fn rename_subtask(self, id: i64, name: Seq<char>, now: Timestamp) -> (
        StoreModel,
        Result<Seq<SubtaskViewModel>, TrackerError>,
    ) {
        match self.renamed_subtask(id, name) {
            Ok(done) => (done, done.list_subtasks(now)),
            Err(error) => (self, Err(error)),
        }
    }
}

/// A subtask with changed text keeps what the tables keep to, where no other has
/// its key.
pub proof fn lemma_set_subtask_fits(m: StoreModel, id: i64, subtask: SubtaskRowModel)
    requires
        m.wf(),
        subtask.id == id,
        position(m.subtasks, another_has_key(subtask.name_key, id)) is None,
    ensures
        m.set_subtask(id, subtask).wf(),
{
    let after = m.set_subtask(id, subtask);
    positions_find_subtasks(m, id);
    position_is_the_first(m.subtasks, another_has_key(subtask.name_key, id));
    if let Some(i) = m.subtask_at(id) {
        assert forall|j: int, k: int| 0 <= j < k < after.subtasks.len() implies (
        #[trigger] after.subtasks[j]).name_key != (#[trigger] after.subtasks[k]).name_key by {
            assert(m.subtasks[j].id < m.subtasks[k].id);
            assert(!another_has_key(subtask.name_key, id)(m.subtasks[j]));
            assert(!another_has_key(subtask.name_key, id)(m.subtasks[k]));
        }
        assert forall|k: int| 0 <= k < after.entries.len() implies after.resolves(
            #[trigger] after.entries[k],
        ) by {
            let entry = m.entries[k];
            assert(m.resolves(entry));
            let t = choose|t: int|
                0 <= t < m.tasks.len() && (#[trigger] m.tasks[t]).id == entry.task_id;
            assert(after.tasks[t].id == entry.task_id);
            if let Some(used) = entry.subtask_id {
                let j = choose|j: int|
                    0 <= j < m.subtasks.len() && (#[trigger] m.subtasks[j]).id == used;
                assert(after.subtasks[j].id == used);
            }
        }
    }
}

/// Joining two subtasks keeps what the tables keep to.
pub proof fn lemma_join_fits(m: StoreModel, from: i64, to: i64)
    requires
        m.wf(),
        from != to,
        m.has_subtask(to),
    ensures
        m.move_entries(from, to).wf(),
        m.move_entries(from, to).remove_subtask(from).wf(),
{
    let moved = m.move_entries(from, to);
    let after = moved.remove_subtask(from);
    assert forall|k: int| 0 <= k < moved.entries.len() implies (#[trigger] moved.entries[k]).id
        == m.entries[k].id && m.resolves(moved.entries[k]) by {
        assert(m.resolves(m.entries[k]));
    }
    lemma_entries_fit(m, moved.entries);
    assert(moved == (StoreModel { entries: moved.entries, ..m }));
    positions_find_subtasks(moved, from);
    if let Some(i) = moved.subtask_at(from) {
        assert forall|j: int| 0 <= j < after.subtasks.len() implies #[trigger] after.subtasks[j]
            == m.subtasks[if j < i {
            j
        } else {
            j + 1
        }] by {}
        assert forall|k: int| 0 <= k < after.entries.len() implies after.resolves(
            #[trigger] after.entries[k],
        ) by {
            let entry = after.entries[k];
            assert(moved.entries[k] == entry);
            assert(moved.resolves(entry));
            let t = choose|t: int|
                0 <= t < m.tasks.len() && (#[trigger] m.tasks[t]).id == entry.task_id;
            assert(after.tasks[t].id == entry.task_id);
            if let Some(used) = entry.subtask_id {
                assert(used != from);
                let j = choose|j: int|
                    0 <= j < m.subtasks.len() && (#[trigger] m.subtasks[j]).id == used;
                if j < i {
                    assert(after.subtasks[j].id == used);
                } else {
                    assert(after.subtasks[j - 1].id == used);
                }
            }
        }
    }
}

/// Moves the entries of one subtask to another.
fn move_entries(store: &mut Store, from: i64, to: i64)
    requires
        old(store)@.wf(),
        from != to,
        old(store)@.has_subtask(to),
    ensures
        final(store)@ == old(store)@.move_entries(from, to),
        final(store)@.wf(),
{
    broadcast use models_of_update;

    let ghost before = store@;
    let ghost moves = moving(from, to);
    let count: usize = store.entries.len();
    for i in 0..count
        invariant
            store.entries@.len() == before.entries.len() == count,
            store@ == (StoreModel { entries: store@.entries, ..before }),
            moves == moving(from, to),
            forall|k: int|
                0 <= k < before.entries.len() ==> (#[trigger] store@.entries[k]) == if k < i {
                    moves(before.entries[k])
                } else {
                    before.entries[k]
                },
    {
        let ghost current = store@;
        assert(store@.entries[i as int] == before.entries[i as int]);
        if store.entries[i].subtask_id == Some(from) {
            store.entries[i].subtask_id = Some(to);
        }
        assert(store@.entries == current.entries.update(i as int, moves(before.entries[i as int])));
    }
    proof {
        lemma_join_fits(before, from, to);
        assert(store@ == before.move_entries(from, to));
    }
}

/// Renames a subtask at a given instant, merging it into an existing one when the
/// new name is already taken. Merging repoints that subtask's time entries, so no
/// recorded time is lost.
pub fn rename_subtask_conn_at(
    store: &mut Store,
    input: RenameSubtaskInput,
    now: Timestamp,
) -> (result: Result<Vec<SubtaskView>, TrackerError>)
    requires
        old(store)@.wf(),
        now.valid(),
    ensures
        final(store)@ == old(store)@.rename_subtask(input.subtask_id, input.name@, now).0,
        reported(result, old(store)@.rename_subtask(input.subtask_id, input.name@, now).1),
        final(store)@.wf(),
{
    broadcast use models_of_update;

    let ghost before = store@;
    let display_name = normalize_subtask_name(input.name.as_str());
    let name_key = subtask_name_key(display_name.as_str());
    proof {
        stored_names_are_stable(input.name@);
    }
    if name_key.as_str().is_empty() {
        return Err(TrackerError::MissingSubtaskName);
    }
    let id: i64 = input.subtask_id;
    let passes = |subtask: &SubtaskRow| -> (answer: bool)
        ensures
            answer == (subtask@.name_key == name_key@ && subtask@.id != id),
    {
        same_text(subtask.name_key.as_str(), name_key.as_str()) && subtask.id != id
    };
    let ghost test = another_has_key(name_key@, id);
    match find_by(&store.subtasks, passes, Ghost(test)) {
        Some(i) => {
            let target: i64 = store.subtasks[i].id;
            proof {
                assert(before.subtasks[i as int].id == target);
                lemma_join_fits(before, id, target);
            }
            move_entries(store, id, target);
            if let Some(place) = find_subtask(store, id) {
                let ghost rows = store.subtasks@;
                store.subtasks.remove(place);
                assert(models(rows.remove(place as int)) == models(rows).remove(place as int));
            }
            assert(store@ == before.move_entries(id, target).remove_subtask(id));
        },
        None => {
            let ghost renamed = SubtaskRowModel {
                name: subtask_name(input.name@),
                name_key: subtask_key(input.name@),
                ..before.subtasks[before.subtask_at(id)->Some_0]
            };
            if let Some(place) = find_subtask(store, id) {
                proof {
                    positions_find_subtasks(before, id);
                    lemma_set_subtask_fits(before, id, renamed);
                    assert(store.subtasks@[place as int]@ == before.subtasks[place as int]);
                }
                let mut subtask = store.subtasks[place].clone();
                subtask.name = display_name;
                subtask.name_key = name_key;
                store.subtasks.set(place, subtask);
            }
            assert(store@ == before.set_subtask(id, renamed));
        },
    }
    list_subtasks_inner_at(store, now)
}

/// Renames a subtask now, merging it into an existing one when the new name is
/// already taken.
pub fn rename_subtask_conn(
    store: &mut Store,
    input: RenameSubtaskInput,
) -> (result: Result<Vec<SubtaskView>, TrackerError>)
    requires
        old(store)@.wf(),
    ensures
        exists|now: Timestamp| #[trigger]
            now.from_clock() && final(store)@ == old(store)@.rename_subtask(
                input.subtask_id,
                input.name@,
                now,
            ).0 && reported(
                result,
                old(store)@.rename_subtask(input.subtask_id, input.name@, now).1,
            ),
        final(store)@.wf(),
{
    let now = utc_now();
    rename_subtask_conn_at(store, input, now)
}

// ---------------------------------------------------------------------------
// Archiving
// ---------------------------------------------------------------------------

impl StoreModel {
    /// Archives a subtask now, or restores it.
    pub open spec fn archived_subtask(self, id: i64, archived: bool, now: Seq<char>) -> StoreModel {
        self.set_subtask(
            id,
            SubtaskRowModel {
                archived_at: if archived {
                    Some(now)
                } else {
                    None
                },
                ..self.subtasks[self.subtask_at(id)->Some_0]
            },
        )
    }

    /// Archives a subtask or restores it, and lists them all.
    pub open spec fn set_subtask_archived(self, id: i64, archived: bool, now: Timestamp) -> (
        StoreModel,
        Result<Seq<SubtaskViewModel>, TrackerError>,
    ) {
        let done = self.archived_subtask(id, archived, utc_text(now));
        (done, done.list_subtasks(now))
    }
}

/// Archives or restores a subtask at a given instant. Archiving hides it from the
/// pickers while leaving its recorded time in reports.
pub fn set_subtask_archived_conn_at(
    store: &mut Store,
    input: SetSubtaskArchivedInput,
    now: Timestamp,
) -> (result: Result<Vec<SubtaskView>, TrackerError>)
    requires
        old(store)@.wf(),
        now.valid(),
    ensures
        final(store)@ == old(store)@.set_subtask_archived(input.subtask_id, input.archived, now).0,
        reported(
            result,
            old(store)@.set_subtask_archived(input.subtask_id, input.archived, now).1,
        ),
        final(store)@.wf(),
{
    broadcast use models_of_update;

    let ghost before = store@;
    let id: i64 = input.subtask_id;
    if let Some(place) = find_subtask(store, id) {
        let archived_at = if input.archived {
            Some(format_utc(now))
        } else {
            None
        };
        proof {
            let there = before.subtasks[place as int];
            positions_find_subtasks(before, id);
            position_is_the_first(before.subtasks, another_has_key(there.name_key, id));
            if let Some(k) = position(before.subtasks, another_has_key(there.name_key, id)) {
                if k < place {
                    assert(before.subtasks[k].name_key != before.subtasks[place as int].name_key);
                } else {
                    assert(before.subtasks[place as int].name_key != before.subtasks[k].name_key);
                }
            }
            lemma_set_subtask_fits(
                before,
                id,
                SubtaskRowModel { archived_at: opt_text(archived_at), ..there },
            );
            assert(store.subtasks@[place as int]@ == there);
        }
        let mut subtask = store.subtasks[place].clone();
        subtask.archived_at = archived_at;
        store.subtasks.set(place, subtask);
    }
    assert(store@ == before.archived_subtask(id, input.archived, utc_text(now)));
    list_subtasks_inner_at(store, now)
}

/// Archives or restores a subtask now.
pub fn set_subtask_archived_conn(
    store: &mut Store,
    input: SetSubtaskArchivedInput,
) -> (result: Result<Vec<SubtaskView>, TrackerError>)
    requires
        old(store)@.wf(),
    ensures
        exists|now: Timestamp| #[trigger]
            now.from_clock() && final(store)@ == old(store)@.set_subtask_archived(
                input.subtask_id,
                input.archived,
                now,
            ).0 && reported(
                result,
                old(store)@.set_subtask_archived(input.subtask_id, input.archived, now).1,
            ),
        final(store)@.wf(),
{
    let now = utc_now();
    set_subtask_archived_conn_at(store, input, now)
}

// ---------------------------------------------------------------------------
// The subtask of an entry
// ---------------------------------------------------------------------------

impl StoreModel {
    /// Gives the entry with an identifier a subtask, or takes it away.
    pub open spec fn set_entry_subtask(self, id: i64, subtask_id: Option<i64>) -> StoreModel {
        match self.entry_at(id) {
            Some(i) => StoreModel {
                entries: self.entries.update(i, TimeEntryModel { subtask_id, ..self.entries[i] }),
                ..self
            },
            None => self,
        }
    }

    /// Gives an entry the subtask that a request names, or takes the subtask away
    /// where it names none, and shows the entry. Where there is no such entry, no
    /// subtask is created for it.
    pub open spec fn update_time_entry_subtask(
        self,
        id: i64,
        name: Option<Seq<char>>,
        now: Timestamp,
    ) -> Result<(StoreModel, TimeEntryViewModel), TrackerError> {
        if self.entry_at(id) is None {
            Err(TrackerError::Database(DatabaseFault::NoRows))
        } else {
            match self.upsert_named_subtask(name, utc_text(now)) {
                Err(error) => Err(error),
                Ok(done) => {
                    let after = done.0.set_entry_subtask(id, subtask_id_of(done.1));
                    Ok((after, after.entry_view_by_id(id, now)->Ok_0))
                },
            }
        }
    }
}

/// An entry with another subtask that is there keeps what the tables keep to.
pub proof fn lemma_set_entry_subtask_fits(m: StoreModel, id: i64, subtask_id: Option<i64>)
    requires
        m.wf(),
        subtask_id matches Some(used) ==> m.has_subtask(used),
    ensures
        m.set_entry_subtask(id, subtask_id).wf(),
        m.set_entry_subtask(id, subtask_id).entry_at(id) == m.entry_at(id),
{
    let after = m.set_entry_subtask(id, subtask_id);
    let test = entry_has_id(id);
    position_is_the_first(m.entries, test);
    if let Some(i) = m.entry_at(id) {
        assert forall|k: int| 0 <= k < after.entries.len() implies (#[trigger] after.entries[k]).id
            == m.entries[k].id && m.resolves(after.entries[k]) by {
            assert(m.resolves(m.entries[k]));
        }
        lemma_entries_fit(m, after.entries);
        assert(after == (StoreModel { entries: after.entries, ..m }));
        assert forall|j: int| 0 <= j < i implies !test(#[trigger] after.entries[j]) by {
            assert(!test(m.entries[j]));
        }
        lemma_position_found(after.entries, test, i);
    }
}

/// Gives an entry the subtask that a request names at a given instant, or takes
/// the subtask away where it names none.
pub fn update_time_entry_subtask_inner_at(
    store: &mut Store,
    input: UpdateEntrySubtaskInput,
    now: Timestamp,
) -> (result: Result<TimeEntryView, TrackerError>)
    requires
        old(store)@.wf(),
        now.valid(),
    ensures
        carried_out(
            result,
            old(store)@,
            final(store)@,
            old(store)@.update_time_entry_subtask(
                input.entry_id,
                opt_text(input.subtask_name),
                now,
            ),
        ),
        final(store)@.wf(),
{
    broadcast use models_of_update;

    let id: i64 = input.entry_id;
    let place = match find_entry(store, id) {
        Some(place) => place,
        None => return Err(TrackerError::Database(DatabaseFault::NoRows)),
    };
    let present = format_utc(now);
    let subtask_id = match upsert_named_subtask(store, input.subtask_name, present.as_str()) {
        Ok(Some(subtask)) => Some(subtask.id),
        Ok(None) => None,
        Err(error) => return Err(error),
    };
    let ghost named = store@;
    proof {
        lemma_set_entry_subtask_fits(named, id, subtask_id);
    }
    store.entries[place].subtask_id = subtask_id;
    assert(store@ == named.set_entry_subtask(id, subtask_id));
    entry_view_by_id_at(store, id, now)
}

/// Gives an entry the subtask that a request names, or takes the subtask away
/// where it names none.
pub fn update_time_entry_subtask_inner(
    store: &mut Store,
    input: UpdateEntrySubtaskInput,
) -> (result: Result<TimeEntryView, TrackerError>)
    requires
        old(store)@.wf(),
    ensures
        exists|now: Timestamp| #[trigger]
            now.from_clock() && carried_out(
                result,
                old(store)@,
                final(store)@,
                old(store)@.update_time_entry_subtask(
                    input.entry_id,
                    opt_text(input.subtask_name),
                    now,
                ),
            ),
        final(store)@.wf(),
{
    let now = utc_now();
    update_time_entry_subtask_inner_at(store, input, now)
}

} // verus!
