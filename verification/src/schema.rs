//! Which version a database has, and how it is brought up to date.

use vstd::prelude::*;
use vstd::string::StringExecFns;
use crate::clock::{compact_utc, compact_utc_text, utc_now, Timestamp};
use crate::error::TrackerError;
use crate::number::{signed_decimal, signed_text};
use crate::text::{same_text, texts};

verus! {

/// The version of the tables that this library reads and writes.
pub const SCHEMA_VERSION: i64 = 2;

/// The version of tables from before versions were noted.
pub const LEGACY_VERSION: i64 = 1;

/// The version of a file that holds none of the tables yet.
pub const EMPTY_VERSION: i64 = 0;

/// Whether a table is one of the tracker's.
pub open spec fn is_tracker_table(name: Seq<char>) -> bool {
    name == "tasks"@ || name == "subtasks"@ || name == "time_entries"@
}

/// Whether some of the tracker's tables are there.
pub fn has_tracker_tables(tables: &Vec<String>) -> (result: bool)
    ensures
        result == exists|i: int|
            0 <= i < tables@.len() && is_tracker_table((#[trigger] tables@[i])@),
{
    for i in 0..tables.len()
        invariant
            forall|k: int| 0 <= k < i ==> !is_tracker_table((#[trigger] tables@[k])@),
    {
        let name = tables[i].as_str();
        if same_text(name, "tasks") || same_text(name, "subtasks") || same_text(
            name,
            "time_entries",
        ) {
            assert(is_tracker_table(tables@[i as int]@));
            return true;
        }
    }
    false
}

/// The version of a database: the one it notes, or the one that its tables show
/// where it notes none.
pub open spec fn detected_version(noted: i64, tables: Seq<Seq<char>>) -> i64 {
    if noted > 0 {
        noted
    } else if exists|i: int| 0 <= i < tables.len() && is_tracker_table(#[trigger] tables[i]) {
        LEGACY_VERSION
    } else {
        EMPTY_VERSION
    }
}

/// Tells the version of a database, recognising installations from before
/// versions were noted.
pub fn detect_version(noted: i64, tables: &Vec<String>) -> (result: i64)
    ensures
        result == detected_version(noted, texts(tables@)),
        result >= 0,
{
    let ghost names = texts(tables@);
    assert forall|i: int| 0 <= i < tables@.len() implies #[trigger] names[i]
        == tables@[i]@ by {}
    if noted > 0 {
        return noted;
    }
    if has_tracker_tables(tables) {
        proof {
            let i = choose|i: int|
                0 <= i < tables@.len() && is_tracker_table((#[trigger] tables@[i])@);
            assert(is_tracker_table(names[i]));
        }
        LEGACY_VERSION
    } else {
        assert forall|i: int| 0 <= i < names.len() implies !is_tracker_table(
            #[trigger] names[i],
        ) by {
            assert(names[i] == tables@[i]@);
        }
        EMPTY_VERSION
    }
}

// ---------------------------------------------------------------------------
// Bringing a database up to date
// ---------------------------------------------------------------------------

/// What has just been done to bring a database up to date.
#[derive(Debug)]
pub enum PrepareEvent {
    /// The database was opened and its version told.
    Detected(Result<i64, TrackerError>),
    /// The tables were created and their version noted.
    Created(Result<(), TrackerError>),
    /// The file of a database of this version was copied, to this place.
    BackedUp(i64, Result<String, TrackerError>),
    /// The migrations were run.
    Migrated(Result<(), TrackerError>),
}

/// What is to be done next.
#[derive(Debug)]
pub enum PrepareStep {
    /// Create the tables of the present version.
    Create,
    /// Copy the file of a database of this version.
    BackUp(i64),
    /// Run the migrations from this version on.
    Migrate(i64),
    /// Nothing: this is the outcome.
    Finish(Result<(), TrackerError>),
}

/// What follows from the version of a database: nothing where it is the present
/// one, a refusal where it is newer, new tables where there are none, and a copy
/// before the migration of what is there.
pub open spec fn step_for_version(version: i64) -> PrepareStep {
    if version == SCHEMA_VERSION {
        PrepareStep::Finish(Ok(()))
    } else if version > SCHEMA_VERSION {
        PrepareStep::Finish(
            Err(TrackerError::SchemaTooNew { found: version, supported: SCHEMA_VERSION }),
        )
    } else if version == EMPTY_VERSION {
        PrepareStep::Create
    } else {
        PrepareStep::BackUp(version)
    }
}

/// What follows from what has been done.
pub open spec fn next_step(event: PrepareEvent) -> PrepareStep {
    match event {
        PrepareEvent::Detected(Ok(version)) => step_for_version(version),
        PrepareEvent::Detected(Err(error)) => PrepareStep::Finish(Err(error)),
        PrepareEvent::Created(outcome) => PrepareStep::Finish(outcome),
        PrepareEvent::BackedUp(version, Ok(path)) => PrepareStep::Migrate(version),
        PrepareEvent::BackedUp(version, Err(error)) => PrepareStep::Finish(Err(error)),
        PrepareEvent::Migrated(outcome) => PrepareStep::Finish(outcome),
    }
}

/// Decides what follows from what has been done. The place of a copy is kept, so
/// that a migration that fails can tell where the untouched data is.
pub fn prepare_inner(event: PrepareEvent, backup_path: &mut Option<String>) -> (result: PrepareStep)
    ensures
        result == next_step(event),
        *final(backup_path) == match event {
            PrepareEvent::BackedUp(version, Ok(path)) => Some(path),
            _ => *old(backup_path),
        },
{
    match event {
        PrepareEvent::Detected(Ok(version)) => {
            if version == SCHEMA_VERSION {
                return PrepareStep::Finish(Ok(()));
            }
            if version > SCHEMA_VERSION {
                return PrepareStep::Finish(
                    Err(TrackerError::SchemaTooNew { found: version, supported: SCHEMA_VERSION }),
                );
            }
            if version == EMPTY_VERSION {
                return PrepareStep::Create;
            }
            PrepareStep::BackUp(version)
        },
        PrepareEvent::Detected(Err(error)) => PrepareStep::Finish(Err(error)),
        PrepareEvent::Created(outcome) => PrepareStep::Finish(outcome),
        PrepareEvent::BackedUp(version, Ok(path)) => {
            *backup_path = Some(path);
            PrepareStep::Migrate(version)
        },
        PrepareEvent::BackedUp(_, Err(error)) => PrepareStep::Finish(Err(error)),
        PrepareEvent::Migrated(outcome) => PrepareStep::Finish(outcome),
    }
}

/// The file name of a copy: `tracker-backup-v1-20260131T093000Z.sqlite3`.
pub open spec fn backup_name(version: i64, now: Timestamp) -> Seq<char> {
    "tracker-backup-v"@ + signed_decimal(version as int) + "-"@ + compact_utc_text(now)
        + ".sqlite3"@
}

/// Names the copy of a database of a version, made at a given instant.
pub fn backup_file_name_at(version: i64, now: Timestamp) -> (result: String)
    requires
        now.valid(),
    ensures
        result@ == backup_name(version, now),
{
    let mut name = "tracker-backup-v".to_owned();
    name.append(signed_text(version).as_str());
    name.append("-");
    name.append(compact_utc(now).as_str());
    name.append(".sqlite3");
    name
}

/// Names the copy of a database of a version, made now.
pub fn backup_file_name(version: i64) -> (result: String)
    ensures
        exists|now: Timestamp| #[trigger]
            now.from_clock() && result@ == backup_name(version, now),
{
    let now = utc_now();
    backup_file_name_at(version, now)
}

// ---------------------------------------------------------------------------
// Migrations
// ---------------------------------------------------------------------------

/// A part of a migration.
#[derive(Debug, Clone, Copy, PartialEq, Eq, Structural)]
pub enum Migration {
    /// Bring tables from before versions were noted to one shape.
    ApplyV1Schema,
    /// Move subtasks out from under tasks into a shared list.
    SharedSubtasks,
}

/// The migrations that lead from a version to the present one.
pub open spec fn migrations_from(version: i64) -> Result<Seq<Migration>, TrackerError> {
    if version >= SCHEMA_VERSION {
        Ok(Seq::empty())
    } else if version == LEGACY_VERSION {
        Ok(seq![Migration::ApplyV1Schema, Migration::SharedSubtasks])
    } else {
        Err(TrackerError::MissingMigration((version + 1) as i64))
    }
}

/// Plans the migrations from a version to the present one, in their order.
pub fn run_migrations(from_version: i64) -> (result: Result<Vec<Migration>, TrackerError>)
    ensures
        match (result, migrations_from(from_version)) {
            (Ok(plan), Ok(expected)) => plan@ == expected,
            (Err(error), Err(refusal)) => error == refusal,
            _ => false,
        },
{
    let mut plan: Vec<Migration> = Vec::new();
    let mut version: i64 = from_version;
    if version == LEGACY_VERSION {
        plan.push(Migration::ApplyV1Schema);
    }
    while version < SCHEMA_VERSION
        invariant
            version >= from_version,
            version == from_version || version == SCHEMA_VERSION,
            version == from_version ==> plan@ == if from_version == LEGACY_VERSION {
                seq![Migration::ApplyV1Schema]
            } else {
                Seq::empty()
            },
            version != from_version ==> from_version == LEGACY_VERSION && plan@ == seq![
                Migration::ApplyV1Schema,
                Migration::SharedSubtasks,
            ],
        decreases SCHEMA_VERSION - version,
    {
        let next: i64 = version + 1;
        if next == 2 {
            plan.push(Migration::SharedSubtasks);
        } else {
            return Err(TrackerError::MissingMigration(next));
        }
        version = next;
    }
    Ok(plan)
}

/// The statement that adds a column to a table.
pub open spec fn add_column_statement(
    table: Seq<char>,
    column: Seq<char>,
    column_type: Seq<char>,
) -> Seq<char> {
    "ALTER TABLE "@ + table + " ADD COLUMN "@ + column + " "@ + column_type
}

/// The statement that makes sure of a column, if the table lacks it.
pub fn ensure_column(
    existing: &Vec<String>,
    table: &str,
    column: &str,
    column_type: &str,
) -> (result: Option<String>)
    ensures
        match result {
            None => texts(existing@).contains(column@),
            Some(statement) => !texts(existing@).contains(column@) && statement@
                == add_column_statement(table@, column@, column_type@),
        },
{
    let ghost names = texts(existing@);
    for i in 0..existing.len()
        invariant
            names == texts(existing@),
            forall|k: int| 0 <= k < i ==> #[trigger] names[k] != column@,
    {
        if same_text(existing[i].as_str(), column) {
            assert(names[i as int] == column@);
            return None;
        }
    }
    let mut statement = "ALTER TABLE ".to_owned();
    statement.append(table);
    statement.append(" ADD COLUMN ");
    statement.append(column);
    statement.append(" ");
    statement.append(column_type);
    Some(statement)
}

// ---------------------------------------------------------------------------
// Status
// ---------------------------------------------------------------------------

/// What came of bringing the database up to date.
#[derive(Debug)]
pub struct AppState {
    /// Where the copy is, if one was made.
    pub backup_path: Option<String>,
    /// Set when the tables could not be brought up to date. Every request then
    /// fails with this message rather than reading tables of another version.
    pub migration_error: Option<String>,
}

/// Reported at startup so that a failed migration can be explained instead of
/// surfacing as an error on every action.
#[derive(Debug)]
pub struct DatabaseStatus {
    pub ok: bool,
    /// The version that this library reads and writes.
    pub schema_version: i64,
    /// The version found in the file, absent when it could not be read.
    pub database_version: Option<i64>,
    pub message: Option<String>,
    pub backup_path: Option<String>,
}

impl AppState {
    /// Whether requests are served.
    pub fn connect(&self) -> (result: Result<(), TrackerError>)
        ensures
            result == match self.migration_error {
                Some(message) => Err(TrackerError::DatabaseUnavailable(message)),
                None => Ok(()),
            },
    {
        match &self.migration_error {
            Some(message) => Err(TrackerError::DatabaseUnavailable(message.clone())),
            None => Ok(()),
        }
    }
}

/// The status of the database, given the version read from the file.
pub fn database_status_inner(
    state: &AppState,
    database_version: Option<i64>,
) -> (result: DatabaseStatus)
    ensures
        result.ok == (state.migration_error is None),
        result.schema_version == SCHEMA_VERSION,
        result.database_version == database_version,
        result.message == state.migration_error,
        result.backup_path == state.backup_path,
{
    DatabaseStatus {
        ok: state.migration_error.is_none(),
        schema_version: SCHEMA_VERSION,
        database_version,
        message: state.migration_error.clone(),
        backup_path: state.backup_path.clone(),
    }
}

// ---------------------------------------------------------------------------
// Laws
// ---------------------------------------------------------------------------

/// A database from a newer build is refused, untouched: nothing is created,
/// copied or migrated, and the refusal names both versions.
pub proof fn newer_databases_are_refused(noted: i64, tables: Seq<Seq<char>>)
    requires
        noted > SCHEMA_VERSION,
    ensures
        next_step(PrepareEvent::Detected(Ok(detected_version(noted, tables))))
            == PrepareStep::Finish(
            Err(TrackerError::SchemaTooNew { found: noted, supported: SCHEMA_VERSION }),
        ),
{
}

/// A database of the present version is left as it is.
pub proof fn current_databases_are_left_alone(tables: Seq<Seq<char>>)
    ensures
        next_step(PrepareEvent::Detected(Ok(detected_version(SCHEMA_VERSION, tables))))
            == PrepareStep::Finish(Ok(())),
{
}

/// Every version that calls for a migration and that a database can show has its
/// migrations, and a copy is made before they run.
pub proof fn data_is_copied_before_it_is_migrated(noted: i64, tables: Seq<Seq<char>>)
    ensures
        ({
            let version = detected_version(noted, tables);
            match next_step(PrepareEvent::Detected(Ok(version))) {
                PrepareStep::BackUp(v) => v == version && migrations_from(v) is Ok,
                PrepareStep::Migrate(v) => false,
                _ => true,
            }
        }),
{
}

/// The version of a database is the one it notes where that is above zero; else it is
/// 1 where one of the tables `tasks`, `subtasks` and `time_entries` is there, and 0
/// where none is.
pub proof fn versions_are_told_by_note_or_tables(noted: i64, tables: Seq<Seq<char>>)
    ensures
        noted > 0 ==> detected_version(noted, tables) == noted,
        noted <= 0 && (tables.contains("tasks"@) || tables.contains("subtasks"@)
            || tables.contains("time_entries"@)) ==> detected_version(noted, tables) == 1,
        noted <= 0 && !tables.contains("tasks"@) && !tables.contains("subtasks"@)
            && !tables.contains("time_entries"@) ==> detected_version(noted, tables) == 0,
{
    if exists|i: int| 0 <= i < tables.len() && is_tracker_table(#[trigger] tables[i]) {
        let i = choose|i: int| 0 <= i < tables.len() && is_tracker_table(#[trigger] tables[i]);
        assert(tables.contains(tables[i]));
    }
    if tables.contains("tasks"@) {
        let i = choose|i: int| 0 <= i < tables.len() && tables[i] == "tasks"@;
        assert(is_tracker_table(tables[i]));
    }
    if tables.contains("subtasks"@) {
        let i = choose|i: int| 0 <= i < tables.len() && tables[i] == "subtasks"@;
        assert(is_tracker_table(tables[i]));
    }
    if tables.contains("time_entries"@) {
        let i = choose|i: int| 0 <= i < tables.len() && tables[i] == "time_entries"@;
        assert(is_tracker_table(tables[i]));
    }
}

/// A database of version 2 is ready, a newer one is refused with both versions named,
/// an empty one gets its tables, and any other is copied.
pub proof fn every_version_has_its_step(version: i64)
    ensures
        match next_step(PrepareEvent::Detected(Ok(version))) {
            PrepareStep::Finish(Ok(_)) => version == 2,
            PrepareStep::Finish(Err(error)) => version > 2 && error is SchemaTooNew
                && error->found == version && error->supported == 2,
            PrepareStep::Create => version == 0,
            PrepareStep::BackUp(copied) => version < 2 && version != 0 && copied == version,
            PrepareStep::Migrate(_) => false,
        },
{
}

/// A fault ends the preparation and is told as it is; a copy leads on to the
/// migration of the version that was copied; and what comes of creating or migrating
/// is the outcome.
pub proof fn faults_end_the_preparation(
    version: i64,
    path: String,
    error: TrackerError,
    outcome: Result<(), TrackerError>,
)
    ensures
        next_step(PrepareEvent::Detected(Err(error))) == PrepareStep::Finish(Err(error)),
        next_step(PrepareEvent::BackedUp(version, Err(error))) == PrepareStep::Finish(Err(error)),
        next_step(PrepareEvent::BackedUp(version, Ok(path))) == PrepareStep::Migrate(version),
        next_step(PrepareEvent::Created(outcome)) == PrepareStep::Finish(outcome),
        next_step(PrepareEvent::Migrated(outcome)) == PrepareStep::Finish(outcome),
{
}

/// From version 1 the tables are first brought to one shape and then given a shared
/// list of subtasks; from version 2 on there is nothing to do; from lower versions no
/// way leads on, and the version that cannot be reached is named.
pub proof fn migrations_lead_to_the_present_version(version: i64)
    ensures
        match migrations_from(version) {
            Ok(plan) => if version == 1 {
                plan.len() == 2 && plan[0] is ApplyV1Schema && plan[1] is SharedSubtasks
            } else {
                version >= 2 && plan.len() == 0
            },
            Err(error) => version < 1 && error is MissingMigration && error->MissingMigration_0
                == version + 1,
        },
{
}

/// The name of a copy holds the version and the instant, and tells copies of one
/// version apart by the second.
pub proof fn copies_are_named_by_version_and_time(version: i64, now: Timestamp)
    ensures
        ({
            let name = backup_name(version, now);
            let head = "tracker-backup-v"@ + signed_decimal(version as int) + seq!['-'];
            let tail = ".sqlite3"@;
            &&& name.take(head.len() as int) == head
            &&& name.skip(name.len() - tail.len()) == tail
            &&& name.subrange(head.len() as int, name.len() - tail.len()) == compact_utc_text(now)
        }),
{
    reveal_strlit("-");
    assert("-"@ == seq!['-']);
    let name = backup_name(version, now);
    let head = "tracker-backup-v"@ + signed_decimal(version as int) + seq!['-'];
    let tail = ".sqlite3"@;
    assert(name == head + compact_utc_text(now) + tail);
    assert(name.take(head.len() as int) == head);
    assert(name.skip(name.len() - tail.len()) == tail);
    assert(name.subrange(head.len() as int, name.len() - tail.len()) == compact_utc_text(now));
}

} // verus!
