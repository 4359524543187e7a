//! Moving subtasks out from under tasks and into a shared list.

use vstd::prelude::*;
use crate::error::TrackerError;
use crate::lists::{
    can_sort, each_of, filtered_items_were_there, filtering_keeps_order, find_by, firsts,
    firsts_come_first, firsts_keep_order, firsts_stand_for_their_groups, firsts_were_there,
    is_grouping, lemma_filter_push, lemma_firsts_are_fewer, lemma_position_found, models,
    models_of_push, passing_items_are_kept, position, position_is_the_first, sort_by,
    sorted_items_were_there, sorting_orders_the_same_items, stable_sorted,
};
use crate::names::{
    normalize_subtask_name, stored_names_are_stable, subtask_key, subtask_name, subtask_name_key,
};
use crate::records::{SubtaskRow, SubtaskRowModel, Task, TaskModel, TimeEntry, TimeEntryModel};
use crate::store::{
    entries_are_consistent, entries_fit, positions_find_subtasks, subtask_has_key, task_has_id,
    tasks_are_consistent, tasks_fit, Store, StoreModel,
};
use crate::text::{
    is_before, same_text, text_before, text_order_is_irreflexive, text_order_is_total,
    text_order_is_transitive,
};

verus! {

/// A subtask that belongs to one task.
#[derive(Debug)]
pub struct LegacySubtask {
    pub id: i64,
    pub task_id: i64,
    pub name: String,
    pub created_at: String,
}

/// What a [`LegacySubtask`] holds.
#[verifier::ext_equal]
pub struct LegacySubtaskModel {
    pub id: i64,
    pub task_id: i64,
    pub name: Seq<char>,
    pub created_at: Seq<char>,
}

impl View for LegacySubtask {
    type V = LegacySubtaskModel;

    open spec fn view(&self) -> LegacySubtaskModel {
        LegacySubtaskModel {
            id: self.id,
            task_id: self.task_id,
            name: self.name@,
            created_at: self.created_at@,
        }
    }
}

/// The tables from when every subtask belonged to one task. Rows stand in the
/// order of their identifiers.
#[derive(Debug)]
pub struct LegacyStore {
    pub tasks: Vec<Task>,
    pub subtasks: Vec<LegacySubtask>,
    pub entries: Vec<TimeEntry>,
    /// The last identifier given to a task.
    pub last_task_id: i64,
}

/// What a [`LegacyStore`] holds.
#[verifier::ext_equal]
pub struct LegacyModel {
    pub tasks: Seq<TaskModel>,
    pub subtasks: Seq<LegacySubtaskModel>,
    pub entries: Seq<TimeEntryModel>,
    pub last_task_id: i64,
}

impl View for LegacyStore {
    type V = LegacyModel;

    open spec fn view(&self) -> LegacyModel {
        LegacyModel {
            tasks: models(self.tasks@),
            subtasks: models(self.subtasks@),
            entries: models(self.entries@),
            last_task_id: self.last_task_id,
        }
    }
}

/// Whether subtasks are told apart by their identifiers, which ascend.
pub open spec fn legacy_subtasks_fit(subtasks: Seq<LegacySubtaskModel>) -> bool {
    forall|i: int, j: int|
        0 <= i < j < subtasks.len() ==> (#[trigger] subtasks[i]).id < (#[trigger] subtasks[j]).id
}

// ---------------------------------------------------------------------------
// The shared list
// ---------------------------------------------------------------------------

/// Subtasks that were created earlier come first; of those created together, the
/// one with the lower identifier.
pub open spec fn earliest_first() -> spec_fn(LegacySubtaskModel, LegacySubtaskModel) -> bool {
    |a: LegacySubtaskModel, b: LegacySubtaskModel|
        text_before(a.created_at, b.created_at) || (a.created_at == b.created_at && a.id < b.id)
}

/// Subtasks can be sorted by when they were created.
pub proof fn earliest_first_can_sort()
    ensures
        can_sort(earliest_first()),
{
    let before = earliest_first();
    assert forall|a: LegacySubtaskModel, b: LegacySubtaskModel| #[trigger]
        before(a, b) implies !before(b, a) by {
        text_order_is_irreflexive(a.created_at);
        if text_before(a.created_at, b.created_at) && text_before(b.created_at, a.created_at) {
            text_order_is_transitive(a.created_at, b.created_at, a.created_at);
        }
    }
    assert forall|a: LegacySubtaskModel, b: LegacySubtaskModel, c: LegacySubtaskModel| #[trigger]
        before(a, c) && !(#[trigger] before(a, b)) implies before(b, c) by {
        text_order_is_total(a.created_at, b.created_at);
        if text_before(b.created_at, a.created_at) && text_before(a.created_at, c.created_at) {
            text_order_is_transitive(b.created_at, a.created_at, c.created_at);
        }
    }
}

/// Whether a subtask has a name that is not blank.
pub open spec fn is_named() -> spec_fn(LegacySubtaskModel) -> bool {
    |subtask: LegacySubtaskModel| subtask_name(subtask.name).len() > 0
}

/// Subtasks whose names differ in letter case and spacing at most.
pub open spec fn shares_key() -> spec_fn(LegacySubtaskModel, LegacySubtaskModel) -> bool {
    |a: LegacySubtaskModel, b: LegacySubtaskModel| subtask_key(a.name) == subtask_key(b.name)
}

/// The subtasks of which one each goes into the shared list: of those that share
/// a name, the one that was created first. Blank names are left out.
pub open spec fn kept_subtasks(subtasks: Seq<LegacySubtaskModel>) -> Seq<LegacySubtaskModel> {
    firsts(stable_sorted(subtasks, earliest_first()).filter(is_named()), shares_key())
}

/// A subtask in the shared list, numbered by its place.
pub open spec fn shared_subtask(i: int, subtask: LegacySubtaskModel) -> SubtaskRowModel {
    SubtaskRowModel {
        id: (i + 1) as i64,
        name: subtask_name(subtask.name),
        name_key: subtask_key(subtask.name),
        archived_at: None,
        created_at: subtask.created_at,
    }
}

/// The shared list.
pub open spec fn shared_subtasks(kept: Seq<LegacySubtaskModel>) -> Seq<SubtaskRowModel> {
    Seq::new(kept.len(), |i: int| shared_subtask(i, kept[i]))
}

/// Where the shared list has the subtask that a name stands for.
pub open spec fn shared_id(shared: Seq<SubtaskRowModel>, name: Seq<char>) -> Option<i64> {
    if subtask_name(name).len() == 0 {
        None
    } else {
        match position(shared, subtask_has_key(subtask_key(name))) {
            Some(i) => Some(shared[i].id),
            None => None,
        }
    }
}

/// Whether a subtask has an identifier.
pub open spec fn legacy_has_id(id: i64) -> spec_fn(LegacySubtaskModel) -> bool {
    |subtask: LegacySubtaskModel| subtask.id == id
}

impl LegacyModel {
    /// Whether identifiers and task names occur once.
    pub open spec fn wf(self) -> bool {
        &&& tasks_fit(self.tasks, self.last_task_id)
        &&& legacy_subtasks_fit(self.subtasks)
        &&& entries_fit(self.entries, i64::MAX)
    }

    /// The shared list that the subtasks make.
    pub open spec fn shared(self) -> Seq<SubtaskRowModel> {
        shared_subtasks(kept_subtasks(self.subtasks))
    }

    /// The shared subtask in place of the one with an identifier; none in place of
    /// one with a blank name, or of one that is not there.
    pub open spec fn new_id(self, id: Option<i64>) -> Option<i64> {
        match id {
            None => None,
            Some(id) => match position(self.subtasks, legacy_has_id(id)) {
                None => None,
                Some(i) => shared_id(self.shared(), self.subtasks[i].name),
            },
        }
    }

    /// An entry with the shared subtask in place of its own.
    pub open spec fn repointed(self) -> spec_fn(TimeEntryModel) -> TimeEntryModel {
        |entry: TimeEntryModel|
            TimeEntryModel { subtask_id: self.new_id(entry.subtask_id), ..entry }
    }

    /// Whether the task of an entry is missing.
    pub open spec fn lacks_task(self) -> spec_fn(TimeEntryModel) -> bool {
        |entry: TimeEntryModel| position(self.tasks, task_has_id(entry.task_id)) is None
    }

    /// The highest identifier of an entry, but no less than zero.
    pub open spec fn highest_entry_id(self) -> i64 {
        if self.entries.len() > 0 && self.entries.last().id > 0 {
            self.entries.last().id
        } else {
            0
        }
    }

    /// The tables with a shared list of subtasks. Entries keep all but their
    /// subtask, which becomes the shared one. Where entries lack their task, their
    /// number is told instead.
    pub open spec fn migrated(self) -> Result<StoreModel, TrackerError> {
        let broken = self.entries.filter(self.lacks_task());
        if broken.len() > 0 {
            Err(TrackerError::MigrationIntegrity(broken.len() as i64))
        } else {
            Ok(
                StoreModel {
                    tasks: self.tasks,
                    subtasks: self.shared(),
                    entries: self.entries.map_values(self.repointed()),
                    last_task_id: self.last_task_id,
                    last_subtask_id: self.shared().len() as i64,
                    last_entry_id: self.highest_entry_id(),
                },
            )
        }
    }
}

impl LegacyStore {
    /// Whether the tables are as they should be, and no longer than can be counted.
    pub fn is_consistent(&self) -> (result: bool)
        ensures
            result == (self@.wf() && self@.subtasks.len() <= i64::MAX && self@.entries.len()
                <= i64::MAX),
    {
        self.subtasks.len() as u64 <= i64::MAX as u64
            && self.entries.len() as u64 <= i64::MAX as u64
            && tasks_are_consistent(&self.tasks, self.last_task_id)
            && entries_are_consistent(&self.entries, i64::MAX)
            && self.subtasks_are_consistent()
    }

    fn subtasks_are_consistent(&self) -> (result: bool)
        ensures
            result == legacy_subtasks_fit(self@.subtasks),
    {
        let ghost all = self@.subtasks;
        for j in 0..self.subtasks.len()
            invariant
                all == self@.subtasks,
                legacy_subtasks_fit(all.take(j as int)),
        {
            let ghost before = all.take(j as int);
            let ghost after = all.take(j + 1);
            if j > 0 && self.subtasks[j - 1].id >= self.subtasks[j].id {
                assert(all[j - 1].id >= all[j as int].id);
                return false;
            }
            assert forall|i: int, k: int| 0 <= i < k < after.len() implies (#[trigger] after[i]).id
                < (#[trigger] after[k]).id by {
                if k < j {
                    assert(before[i].id < before[k].id);
                } else {
                    assert(all[j - 1].id < all[j as int].id);
                }
                if k == j && i < j - 1 {
                    assert(before[i].id < before[j - 1].id);
                }
            }
        }
        assert(all.take(all.len() as int) == all);
        true
    }
}

/// The key of a legacy name, or nothing where the name is blank.
fn key_of(name: &str) -> (result: Option<String>)
    ensures
        match result {
            Some(key) => subtask_name(name@).len() > 0 && key@ == subtask_key(name@),
            None => subtask_name(name@).len() == 0,
        },
{
    let key = subtask_name_key(name);
    if key.as_str().is_empty() {
        None
    } else {
        Some(key)
    }
}

/// Where the shared list has a key.
fn find_key(shared: &Vec<SubtaskRow>, key: &str) -> (result: Option<usize>)
    ensures
        match result {
            Some(i) => position(models(shared@), subtask_has_key(key@)) == Some(i as int) && i
                < shared@.len(),
            None => position(models(shared@), subtask_has_key(key@)) is None,
        },
{
    let passes = |subtask: &SubtaskRow| -> (same: bool)
        ensures
            same == (subtask@.name_key == key@),
    {
        same_text(subtask.name_key.as_str(), key)
    };
    find_by(shared, passes, Ghost(subtask_has_key(key@)))
}

/// Makes the shared list.
fn share_subtasks(legacy: &LegacyStore) -> (result: Vec<SubtaskRow>)
    requires
        legacy@.subtasks.len() <= i64::MAX,
    ensures
        models(result@) == legacy@.shared(),
{
    broadcast use models_of_push;

    let comes_before = |a: &&LegacySubtask, b: &&LegacySubtask| -> (answer: bool)
        ensures
            answer == earliest_first()(a@, b@),
    {
        is_before(a.created_at.as_str(), b.created_at.as_str()) || (same_text(
            a.created_at.as_str(),
            b.created_at.as_str(),
        ) && a.id < b.id)
    };
    proof {
        earliest_first_can_sort();
        sorting_orders_the_same_items(legacy@.subtasks, earliest_first());
    }
    let ordered = sort_by(each_of(&legacy.subtasks), comes_before, Ghost(earliest_first()));
    let ghost all = stable_sorted(legacy@.subtasks, earliest_first());
    let mut shared: Vec<SubtaskRow> = Vec::new();
    let ghost kept = firsts(all.take(0).filter(is_named()), shares_key());
    proof {
        reveal(Seq::filter);
        assert(models(shared@) == shared_subtasks(kept));
    }
    for i in 0..ordered.len()
        invariant
            models(ordered@) == all,
            all.len() <= i64::MAX,
            kept == firsts(all.take(i as int).filter(is_named()), shares_key()),
            kept.len() <= i,
            models(shared@) == shared_subtasks(kept),
    {
        let ghost so_far = all.take(i as int);
        let ghost item = all[i as int];
        let ghost named = so_far.filter(is_named());
        proof {
            assert(ordered@[i as int]@ == item);
            assert(all.take(i + 1) == so_far.push(item));
            lemma_filter_push(so_far, item, is_named());
            stored_names_are_stable(item.name);
        }
        let display_name = normalize_subtask_name(ordered[i].name.as_str());
        if let Some(name_key) = key_of(display_name.as_str()) {
            let found = find_key(&shared, name_key.as_str());
            proof {
                assert(named.push(item).drop_last() == named);
                position_is_the_first(models(shared@), subtask_has_key(name_key@));
                if let Some(k) = found {
                    assert(shares_key()(kept[k as int], item));
                } else {
                    assert forall|k: int| 0 <= k < kept.len() implies !shares_key()(
                        #[trigger] kept[k],
                        item,
                    ) by {
                        assert(!subtask_has_key(name_key@)(models(shared@)[k]));
                    }
                }
            }
            if found.is_none() {
                let id: i64 = shared.len() as i64 + 1;
                let ghost before = models(shared@);
                shared.push(
                    SubtaskRow {
                        id,
                        name: display_name,
                        name_key,
                        archived_at: None,
                        created_at: ordered[i].created_at.clone(),
                    },
                );
                proof {
                    assert(models(shared@) == before.push(shared_subtask(kept.len() as int, item)));
                    kept = kept.push(item);
                    assert(models(shared@) == shared_subtasks(kept));
                }
            }
        }
    }
    assert(all.take(all.len() as int) == all);
    shared
}

/// The shared subtask in place of each one, in the order of the table.
fn new_ids(legacy: &LegacyStore, shared: &Vec<SubtaskRow>) -> (result: Vec<Option<i64>>)
    ensures
        result@.len() == legacy@.subtasks.len(),
        forall|i: int|
            0 <= i < result@.len() ==> (#[trigger] result@[i]) == shared_id(
                models(shared@),
                legacy@.subtasks[i].name,
            ),
{
    let mut ids: Vec<Option<i64>> = Vec::new();
    for i in 0..legacy.subtasks.len()
        invariant
            ids@.len() == i,
            forall|k: int|
                0 <= k < i ==> (#[trigger] ids@[k]) == shared_id(
                    models(shared@),
                    legacy@.subtasks[k].name,
                ),
    {
        let id = match key_of(legacy.subtasks[i].name.as_str()) {
            Some(key) => match find_key(shared, key.as_str()) {
                Some(place) => {
                    assert(models(shared@)[place as int].id == shared@[place as int].id);
                    Some(shared[place].id)
                },
                None => None,
            },
            None => None,
        };
        assert(id == shared_id(models(shared@), legacy@.subtasks[i as int].name));
        ids.push(id);
    }
    ids
}

/// Entries with the shared subtasks in place of their own.
fn repoint_entries(legacy: &LegacyStore, shared: &Vec<SubtaskRow>) -> (result: Vec<TimeEntry>)
    requires
        models(shared@) == legacy@.shared(),
    ensures
        models(result@) == legacy@.entries.map_values(legacy@.repointed()),
{
    broadcast use models_of_push;

    let ids = new_ids(legacy, shared);
    let ghost repointed = legacy@.entries.map_values(legacy@.repointed());
    let mut entries: Vec<TimeEntry> = Vec::new();
    assert(models(entries@) == repointed.take(0));
    for i in 0..legacy.entries.len()
        invariant
            models(shared@) == legacy@.shared(),
            ids@.len() == legacy@.subtasks.len(),
            forall|k: int|
                0 <= k < ids@.len() ==> (#[trigger] ids@[k]) == shared_id(
                    models(shared@),
                    legacy@.subtasks[k].name,
                ),
            repointed == legacy@.entries.map_values(legacy@.repointed()),
            models(entries@) == repointed.take(i as int),
    {
        let subtask_id = match legacy.entries[i].subtask_id {
            Some(id) => {
                let passes = |subtask: &LegacySubtask| -> (same: bool)
                    ensures
                        same == (subtask@.id == id),
                {
                    subtask.id == id
                };
                match find_by(&legacy.subtasks, passes, Ghost(legacy_has_id(id))) {
                    Some(place) => ids[place],
                    None => None,
                }
            },
            None => None,
        };
        assert(subtask_id == legacy@.new_id(legacy@.entries[i as int].subtask_id));
        let mut entry = legacy.entries[i].clone();
        entry.subtask_id = subtask_id;
        assert(entry@ == repointed[i as int]);
        entries.push(entry);
        assert(repointed.take(i + 1) == repointed.take(i as int).push(repointed[i as int]));
    }
    assert(repointed.take(repointed.len() as int) == repointed);
    entries
}

/// How many entries lack their task.
fn count_broken(legacy: &LegacyStore) -> (result: i64)
    requires
        legacy@.entries.len() <= i64::MAX,
    ensures
        result == legacy@.entries.filter(legacy@.lacks_task()).len(),
{
    let ghost all = legacy@.entries;
    let ghost test = legacy@.lacks_task();
    let mut count: i64 = 0;
    proof {
        reveal(Seq::filter);
        assert(all.take(0).filter(test).len() == 0);
    }
    for i in 0..legacy.entries.len()
        invariant
            all == legacy@.entries,
            all.len() <= i64::MAX,
            test == legacy@.lacks_task(),
            count == all.take(i as int).filter(test).len(),
            count <= i,
    {
        let task_id: i64 = legacy.entries[i].task_id;
        proof {
            assert(all.take(i + 1) == all.take(i as int).push(all[i as int]));
            lemma_filter_push(all.take(i as int), all[i as int], test);
            assert(all[i as int].task_id == task_id);
        }
        let passes = |task: &Task| -> (same: bool)
            ensures
                same == (task@.id == task_id),
        {
            task.id == task_id
        };
        if find_by(&legacy.tasks, passes, Ghost(task_has_id(task_id))).is_none() {
            count = count + 1;
        }
    }
    assert(all.take(all.len() as int) == all);
    count
}

/// The tables with a shared list are as they should be.
pub proof fn migrated_tables_fit(m: LegacyModel)
    requires
        m.wf(),
        m.subtasks.len() <= i64::MAX,
        m.migrated() is Ok,
    ensures
        m.migrated()->Ok_0.wf(),
        m.shared().len() <= m.subtasks.len(),
{
    let after = m.migrated()->Ok_0;
    let ordered = stable_sorted(m.subtasks, earliest_first());
    let named = ordered.filter(is_named());
    let kept = kept_subtasks(m.subtasks);
    earliest_first_can_sort();
    sorting_orders_the_same_items(m.subtasks, earliest_first());
    ordered.lemma_filter_len(is_named());
    lemma_firsts_are_fewer(named, shares_key());
    firsts_stand_for_their_groups(named, shares_key());
    assert forall|i: int, j: int| 0 <= i < j < after.subtasks.len() implies (
    #[trigger] after.subtasks[i]).id < (#[trigger] after.subtasks[j]).id
        && after.subtasks[i].name_key != after.subtasks[j].name_key by {
        assert(!shares_key()(kept[i], kept[j]));
    }
    assert forall|i: int, j: int| 0 <= i < j < after.entries.len() implies (
    #[trigger] after.entries[i]).id < (#[trigger] after.entries[j]).id by {
        assert(m.entries[i].id < m.entries[j].id);
    }
    assert forall|i: int| 0 <= i < after.entries.len() implies (#[trigger] after.entries[i]).id
        <= after.last_entry_id by {
        if i < m.entries.len() - 1 {
            assert(m.entries[i].id < m.entries[m.entries.len() - 1].id);
        }
    }
    assert forall|k: int| 0 <= k < after.entries.len() implies after.resolves(
        #[trigger] after.entries[k],
    ) by {
        let entry = m.entries[k];
        if m.lacks_task()(entry) {
            passing_items_are_kept(m.entries, m.lacks_task(), entry);
        }
        position_is_the_first(m.tasks, task_has_id(entry.task_id));
        let t = position(m.tasks, task_has_id(entry.task_id))->Some_0;
        assert(after.tasks[t].id == entry.task_id);
        if let Some(id) = after.entries[k].subtask_id {
            let legacy_id = entry.subtask_id->Some_0;
            let i = position(m.subtasks, legacy_has_id(legacy_id))->Some_0;
            let key = subtask_key(m.subtasks[i].name);
            position_is_the_first(m.shared(), subtask_has_key(key));
            let j = position(m.shared(), subtask_has_key(key))->Some_0;
            assert(after.subtasks[j].id == id);
        }
    }
}

/// Moves subtasks out from under tasks and into a shared list.
///
/// Subtask names that differ only in case or spacing collapse into a single row,
/// keeping the earliest-created spelling. Entries are repointed at the surviving
/// rows, so no recorded time is lost.
pub fn migrate_1_to_2_inner(legacy: &LegacyStore) -> (result: Result<Store, TrackerError>)
    requires
        legacy@.wf(),
        legacy@.subtasks.len() <= i64::MAX,
        legacy@.entries.len() <= i64::MAX,
    ensures
        match (result, legacy@.migrated()) {
            (Ok(store), Ok(expected)) => store@ == expected && store@.wf(),
            (Err(error), Err(refusal)) => error == refusal,
            _ => false,
        },
{
    let broken: i64 = count_broken(legacy);
    if broken > 0 {
        return Err(TrackerError::MigrationIntegrity(broken));
    }
    proof {
        migrated_tables_fit(legacy@);
    }
    let subtasks = share_subtasks(legacy);
    let entries = repoint_entries(legacy, &subtasks);
    let mut tasks: Vec<Task> = Vec::new();
    for i in 0..legacy.tasks.len()
        invariant
            tasks@ == legacy.tasks@.take(i as int),
    {
        tasks.push(legacy.tasks[i].clone());
        assert(tasks@ == legacy.tasks@.take(i + 1));
    }
    assert(tasks@ == legacy.tasks@);
    let count: usize = legacy.entries.len();
    let last_entry_id = if count > 0 && legacy.entries[count - 1].id > 0 {
        legacy.entries[count - 1].id
    } else {
        0
    };
    let last_subtask_id = subtasks.len() as i64;
    Ok(
        Store {
            tasks,
            subtasks,
            entries,
            last_task_id: legacy.last_task_id,
            last_subtask_id,
            last_entry_id,
        },
    )
}

// ---------------------------------------------------------------------------
// Laws
// ---------------------------------------------------------------------------

/// Migrating drops no entry: each keeps its identifier, its task, its times and
/// its note. Tasks stay as they are.
pub proof fn migration_keeps_every_entry(m: LegacyModel)
    requires
        m.migrated() is Ok,
    ensures
        m.migrated()->Ok_0.tasks == m.tasks,
        m.migrated()->Ok_0.entries.len() == m.entries.len(),
        forall|i: int|
            0 <= i < m.entries.len() ==> ({
                let entry = #[trigger] m.migrated()->Ok_0.entries[i];
                entry == (TimeEntryModel { subtask_id: entry.subtask_id, ..m.entries[i] })
            }),
{
}

/// An entry's subtask after migrating has the name it had before, up to letter
/// case and spacing; a blank name leaves the entry without a subtask.
pub proof fn migration_follows_names(m: LegacyModel, i: int, j: int)
    requires
        m.wf(),
        m.subtasks.len() <= i64::MAX,
        m.migrated() is Ok,
        0 <= i < m.entries.len(),
        0 <= j < m.subtasks.len(),
        m.entries[i].subtask_id == Some(m.subtasks[j].id),
    ensures
        match m.migrated()->Ok_0.entries[i].subtask_id {
            None => subtask_name(m.subtasks[j].name).len() == 0,
            Some(id) => subtask_name(m.subtasks[j].name).len() > 0
                && (m.migrated()->Ok_0.subtask_at(id) matches Some(k)
                && m.migrated()->Ok_0.subtasks[k].name_key == subtask_key(m.subtasks[j].name)),
        },
{
    let id = m.subtasks[j].id;
    let name = m.subtasks[j].name;
    let after = m.migrated()->Ok_0;
    let shared = m.shared();
    migrated_tables_fit(m);
    assert forall|k: int| 0 <= k < j implies !legacy_has_id(id)(#[trigger] m.subtasks[k]) by {
        assert(m.subtasks[k].id < m.subtasks[j].id);
    }
    lemma_position_found(m.subtasks, legacy_has_id(id), j);
    if subtask_name(name).len() > 0 {
        let k = lemma_name_is_shared(m, j);
        position_is_the_first(shared, subtask_has_key(subtask_key(name)));
        assert(subtask_has_key(subtask_key(name))(shared[k]));
        let p = position(shared, subtask_has_key(subtask_key(name)))->Some_0;
        positions_find_subtasks(after, shared[p].id);
        assert(after.subtasks[p].id == shared[p].id);
        let q = after.subtask_at(shared[p].id)->Some_0;
        if q < p {
            assert(after.subtasks[q].id < after.subtasks[p].id);
        }
        if p < q {
            assert(after.subtasks[p].id < after.subtasks[q].id);
        }
    }
}

/// Every name that is not blank is in the shared list.
proof fn lemma_name_is_shared(m: LegacyModel, j: int) -> (k: int)
    requires
        0 <= j < m.subtasks.len(),
        subtask_name(m.subtasks[j].name).len() > 0,
    ensures
        0 <= k < m.shared().len(),
        m.shared()[k].name_key == subtask_key(m.subtasks[j].name),
{
    let ordered = stable_sorted(m.subtasks, earliest_first());
    let named = ordered.filter(is_named());
    let kept = kept_subtasks(m.subtasks);
    earliest_first_can_sort();
    sorted_items_were_there(m.subtasks, earliest_first());
    assert(m.subtasks.contains(m.subtasks[j]));
    assert(ordered.contains(m.subtasks[j]));
    passing_items_are_kept(ordered, is_named(), m.subtasks[j]);
    let i = choose|i: int| 0 <= i < named.len() && named[i] == m.subtasks[j];
    firsts_stand_for_their_groups(named, shares_key());
    let k = choose|k: int| 0 <= k < kept.len() && shares_key()(#[trigger] kept[k], named[i]);
    k
}

/// Of the spellings of a name, the shared list keeps the one that was created
/// first.
pub proof fn migration_keeps_the_earliest_spelling(m: LegacyModel, k: int)
    requires
        0 <= k < m.shared().len(),
    ensures
        exists|j: int|
            0 <= j < m.subtasks.len() && m.shared()[k].name == subtask_name(
                (#[trigger] m.subtasks[j]).name,
            ) && m.shared()[k].name_key == subtask_key(m.subtasks[j].name)
                && m.shared()[k].created_at == m.subtasks[j].created_at && forall|i: int|
                0 <= i < m.subtasks.len() && is_named()(#[trigger] m.subtasks[i]) && subtask_key(
                    m.subtasks[i].name,
                ) == m.shared()[k].name_key ==> !earliest_first()(m.subtasks[i], m.subtasks[j]),
{
    let ordered = stable_sorted(m.subtasks, earliest_first());
    let named = ordered.filter(is_named());
    let kept = kept_subtasks(m.subtasks);
    let grouped = shares_key();
    earliest_first_can_sort();
    sorted_items_were_there(m.subtasks, earliest_first());
    sorting_orders_the_same_items(m.subtasks, earliest_first());
    filtering_keeps_order(ordered, is_named(), earliest_first());
    filtered_items_were_there(ordered, is_named());
    assert(is_grouping(grouped));
    firsts_were_there(named, grouped);
    assert(named.contains(kept[k]));
    let n = choose|n: int| 0 <= n < named.len() && named[n] == kept[k];
    assert(ordered.contains(named[n]));
    assert(m.subtasks.contains(kept[k]));
    let j = choose|j: int| 0 <= j < m.subtasks.len() && m.subtasks[j] == kept[k];
    assert forall|i: int|
        0 <= i < m.subtasks.len() && is_named()(#[trigger] m.subtasks[i]) && subtask_key(
            m.subtasks[i].name,
        ) == m.shared()[k].name_key implies !earliest_first()(m.subtasks[i], m.subtasks[j]) by {
        let other = m.subtasks[i];
        assert(m.subtasks.contains(other));
        assert(ordered.contains(other));
        passing_items_are_kept(ordered, is_named(), other);
        let p = choose|p: int| 0 <= p < named.len() && named[p] == other;
        firsts_come_first(named, grouped, earliest_first(), k, p);
    }
    assert(m.shared()[k].name == subtask_name(m.subtasks[j].name));
}

/// What is recorded after migrating has an identifier that no entry had before.
pub proof fn new_entries_get_fresh_identifiers(m: LegacyModel, i: int)
    requires
        m.wf(),
        m.subtasks.len() <= i64::MAX,
        m.migrated() is Ok,
        0 <= i < m.entries.len(),
    ensures
        m.entries[i].id <= m.migrated()->Ok_0.last_entry_id,
{
    migrated_tables_fit(m);
    assert(m.migrated()->Ok_0.entries[i].id == m.entries[i].id);
}

/// Every subtask of the shared list is in use, is numbered by its place, and has a
/// name and a key of its own; the list gives out identifiers after its last one.
pub proof fn shared_subtasks_are_in_use(m: LegacyModel)
    requires
        m.migrated() is Ok,
        m.subtasks.len() <= i64::MAX,
    ensures
        ({
            let after = m.migrated()->Ok_0;
            &&& forall|k: int|
                #![trigger after.subtasks[k]]
                0 <= k < after.subtasks.len() ==> {
                    &&& after.subtasks[k].archived_at is None
                    &&& after.subtasks[k].id == k + 1
                    &&& after.subtasks[k].name.len() > 0
                    &&& after.subtasks[k].name_key == subtask_key(after.subtasks[k].name)
                }
            &&& forall|j: int, k: int|
                0 <= j < k < after.subtasks.len() ==> (#[trigger] after.subtasks[j]).name_key != (
                #[trigger] after.subtasks[k]).name_key
            &&& after.last_subtask_id == after.subtasks.len()
        }),
{
    let after = m.migrated()->Ok_0;
    let ordered = stable_sorted(m.subtasks, earliest_first());
    let named = ordered.filter(is_named());
    let kept = kept_subtasks(m.subtasks);
    earliest_first_can_sort();
    sorting_orders_the_same_items(m.subtasks, earliest_first());
    ordered.lemma_filter_len(is_named());
    lemma_firsts_are_fewer(named, shares_key());
    firsts_were_there(named, shares_key());
    filtered_items_were_there(ordered, is_named());
    firsts_stand_for_their_groups(named, shares_key());
    assert forall|k: int|
        #![trigger after.subtasks[k]]
        0 <= k < after.subtasks.len() implies {
        &&& after.subtasks[k].archived_at is None
        &&& after.subtasks[k].id == k + 1
        &&& after.subtasks[k].name.len() > 0
        &&& after.subtasks[k].name_key == subtask_key(after.subtasks[k].name)
    } by {
        stored_names_are_stable(kept[k].name);
        assert(named.contains(kept[k]));
        let n = choose|n: int| 0 <= n < named.len() && named[n] == kept[k];
        assert(is_named()(named[n]));
    }
    assert forall|j: int, k: int| 0 <= j < k < after.subtasks.len() implies (
    #[trigger] after.subtasks[j]).name_key != (#[trigger] after.subtasks[k]).name_key by {
        assert(!shares_key()(kept[j], kept[k]));
    }
}

/// Every name that is not blank is in the shared list, and the list stands in the
/// order in which its names were created.
pub proof fn every_name_is_shared(m: LegacyModel, j: int)
    requires
        0 <= j < m.subtasks.len(),
        subtask_name(m.subtasks[j].name).len() > 0,
    ensures
        m.migrated() matches Ok(after) ==> {
            &&& exists|k: int|
                0 <= k < after.subtasks.len() && (#[trigger] after.subtasks[k]).name_key
                    == subtask_key(m.subtasks[j].name)
            &&& forall|a: int, b: int|
                0 <= a < b < after.subtasks.len() ==> !text_before(
                    (#[trigger] after.subtasks[b]).created_at,
                    (#[trigger] after.subtasks[a]).created_at,
                )
        },
{
    let k = lemma_name_is_shared(m, j);
    let ordered = stable_sorted(m.subtasks, earliest_first());
    let named = ordered.filter(is_named());
    let kept = kept_subtasks(m.subtasks);
    earliest_first_can_sort();
    sorting_orders_the_same_items(m.subtasks, earliest_first());
    filtering_keeps_order(ordered, is_named(), earliest_first());
    firsts_keep_order(named, shares_key(), earliest_first());
    assert forall|a: int, b: int| 0 <= a < b < m.shared().len() implies !text_before(
        (#[trigger] m.shared()[b]).created_at,
        (#[trigger] m.shared()[a]).created_at,
    ) by {
        assert(!earliest_first()(kept[b], kept[a]));
    }
}

/// An entry without a subtask, or with one that is not there, has none after
/// migrating.
pub proof fn no_subtask_stays_none(m: LegacyModel, i: int)
    requires
        m.migrated() is Ok,
        0 <= i < m.entries.len(),
        m.entries[i].subtask_id is Some ==> forall|j: int|
            0 <= j < m.subtasks.len() ==> (#[trigger] m.subtasks[j]).id
                != m.entries[i].subtask_id->Some_0,
    ensures
        m.migrated()->Ok_0.entries[i].subtask_id is None,
{
    if let Some(id) = m.entries[i].subtask_id {
        position_is_the_first(m.subtasks, legacy_has_id(id));
    }
}

/// After migrating, tasks are given identifiers as before, and entries after the
/// highest one that any has.
pub proof fn identifiers_go_on_after_migrating(m: LegacyModel)
    requires
        m.wf(),
        m.migrated() is Ok,
    ensures
        ({
            let after = m.migrated()->Ok_0;
            &&& after.last_task_id == m.last_task_id
            &&& after.last_entry_id >= 0
            &&& after.last_entry_id > 0 ==> exists|i: int|
                0 <= i < m.entries.len() && (#[trigger] m.entries[i]).id == after.last_entry_id
            &&& forall|i: int|
                0 <= i < m.entries.len() ==> (#[trigger] m.entries[i]).id <= after.last_entry_id
        }),
{
    let n = m.entries.len() - 1;
    if n >= 0 {
        assert(m.entries[n] == m.entries.last());
        assert forall|i: int| 0 <= i < m.entries.len() implies (#[trigger] m.entries[i]).id
            <= m.migrated()->Ok_0.last_entry_id by {
            if i < n {
                assert(m.entries[i].id < m.entries[n].id);
            }
        }
    }
}

/// Migrating is refused exactly where some entry has no task, and then tells how many
/// have none.
pub proof fn entries_without_a_task_stop_the_migration(m: LegacyModel)
    requires
        m.entries.len() <= i64::MAX,
    ensures
        ({
            let broken = m.entries.filter(
                |entry: TimeEntryModel|
                    forall|t: int|
                        0 <= t < m.tasks.len() ==> (#[trigger] m.tasks[t]).id != entry.task_id,
            );
            match m.migrated() {
                Ok(_) => broken.len() == 0,
                Err(error) => broken.len() > 0 && error is MigrationIntegrity
                    && error->MigrationIntegrity_0 == broken.len(),
            }
        }),
{
    let test = |entry: TimeEntryModel|
        forall|t: int|
            0 <= t < m.tasks.len() ==> (#[trigger] m.tasks[t]).id != entry.task_id;
    assert forall|entry: TimeEntryModel| #[trigger] m.lacks_task()(entry) == test(entry) by {
        position_is_the_first(m.tasks, task_has_id(entry.task_id));
        if let Some(t) = position(m.tasks, task_has_id(entry.task_id)) {
            assert(m.tasks[t].id == entry.task_id);
        } else {
            assert forall|t: int| 0 <= t < m.tasks.len() implies (#[trigger] m.tasks[t]).id
                != entry.task_id by {
                assert(!task_has_id(entry.task_id)(m.tasks[t]));
            }
        }
    }
    assert(m.lacks_task() =~= test);
    m.entries.lemma_filter_len(test);
}

/// A subtask of the shared list has the stored form of a name that was there, and the
/// time at which that was created; of all the spellings of the name, no other was
/// created before it, nor together with it under a lower identifier.
pub proof fn the_first_spelling_is_kept(m: LegacyModel, k: int)
    requires
        m.migrated() is Ok,
        0 <= k < m.migrated()->Ok_0.subtasks.len(),
    ensures
        ({
            let row = m.migrated()->Ok_0.subtasks[k];
            exists|j: int|
                {
                    let first = #[trigger] m.subtasks[j];
                    &&& 0 <= j < m.subtasks.len()
                    &&& row.name == subtask_name(first.name)
                    &&& row.name_key == subtask_key(first.name)
                    &&& row.created_at == first.created_at
                    &&& forall|i: int|
                        0 <= i < m.subtasks.len() && subtask_name(
                            (#[trigger] m.subtasks[i]).name,
                        ).len() > 0 && subtask_key(m.subtasks[i].name) == row.name_key
                            ==> !text_before(m.subtasks[i].created_at, first.created_at) && (m.subtasks[i].created_at == first.created_at ==> m.subtasks[i].id
                            >= first.id)
                }
        }),
{
    let row = m.migrated()->Ok_0.subtasks[k];
    assert(row == m.shared()[k]);
    migration_keeps_the_earliest_spelling(m, k);
    let j = choose|j: int|
        0 <= j < m.subtasks.len() && m.shared()[k].name == subtask_name(
            (#[trigger] m.subtasks[j]).name,
        ) && m.shared()[k].name_key == subtask_key(m.subtasks[j].name) && m.shared()[k].created_at
            == m.subtasks[j].created_at && forall|i: int|
            0 <= i < m.subtasks.len() && is_named()(#[trigger] m.subtasks[i]) && subtask_key(
                m.subtasks[i].name,
            ) == m.shared()[k].name_key ==> !earliest_first()(m.subtasks[i], m.subtasks[j]);
    let first = m.subtasks[j];
    assert forall|i: int|
        0 <= i < m.subtasks.len() && subtask_name((#[trigger] m.subtasks[i]).name).len() > 0
            && subtask_key(m.subtasks[i].name) == row.name_key implies !text_before(
        m.subtasks[i].created_at,
        first.created_at,
    ) && (m.subtasks[i].created_at == first.created_at ==> m.subtasks[i].id >= first.id) by {
        assert(is_named()(m.subtasks[i]));
        assert(!earliest_first()(m.subtasks[i], m.subtasks[j]));
    }
}

} // verus!
