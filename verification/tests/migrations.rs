use tracker::clock::{parse_instant, Timestamp};
use tracker::error::TrackerError;
use tracker::migration::{migrate_1_to_2_inner, LegacyStore, LegacySubtask};
use tracker::records::{StartTimerInput, SubtaskRow, Task, TaskInput, TimeEntry};
use tracker::schema::{
    backup_file_name, backup_file_name_at, database_status_inner, detect_version, ensure_column,
    has_tracker_tables, prepare_inner, run_migrations, AppState, Migration, PrepareEvent,
    PrepareStep, EMPTY_VERSION, LEGACY_VERSION, SCHEMA_VERSION,
};
use tracker::store::Store;
use tracker::timers::start_timer_inner_at;

fn at(text: &str) -> Timestamp {
    parse_instant(text).expect("an instant")
}

/// A file as the tracker finds it: the version it notes and what it holds.
struct Database {
    noted: i64,
    tables: Vec<String>,
    legacy: LegacyStore,
    store: Option<Store>,
}

fn tracker_tables() -> Vec<String> {
    vec!["tasks".to_owned(), "subtasks".to_owned(), "time_entries".to_owned()]
}

fn empty_legacy() -> LegacyStore {
    LegacyStore { tasks: Vec::new(), subtasks: Vec::new(), entries: Vec::new(), last_task_id: 0 }
}

fn empty_database() -> Database {
    Database { noted: 0, tables: Vec::new(), legacy: empty_legacy(), store: None }
}

/// Builds a version 1 database.
fn legacy_database() -> Database {
    Database { noted: 0, tables: tracker_tables(), legacy: empty_legacy(), store: None }
}

fn create_latest_schema(database: &mut Database) {
    database.tables = tracker_tables();
    database.store = Some(Store::new());
}

fn insert_legacy_task(database: &mut Database, id: i64, name: &str) {
    database.legacy.tasks.push(Task {
        id,
        name: name.to_owned(),
        github_kind: None,
        github_reference: None,
        github_state: None,
        github_checked_at: None,
        closed_at: None,
        created_at: "2026-01-01T00:00:00Z".to_owned(),
        updated_at: "2026-01-01T00:00:00Z".to_owned(),
    });
    database.legacy.last_task_id = database.legacy.last_task_id.max(id);
}

fn insert_legacy_subtask(
    database: &mut Database,
    id: i64,
    task_id: i64,
    name: &str,
    created_at: &str,
) {
    database.legacy.subtasks.push(LegacySubtask {
        id,
        task_id,
        name: name.to_owned(),
        created_at: created_at.to_owned(),
    });
    database.legacy.subtasks.sort_by_key(|subtask| subtask.id);
}

fn insert_legacy_entry(database: &mut Database, id: i64, task_id: i64, subtask_id: Option<i64>) {
    database.legacy.entries.push(TimeEntry {
        id,
        task_id,
        subtask_id,
        started_at: "2026-01-02T09:00:00Z".to_owned(),
        ended_at: Some("2026-01-02T10:00:00Z".to_owned()),
        note: None,
    });
}

fn migrate(database: &mut Database, from_version: i64) -> Result<(), TrackerError> {
    for migration in run_migrations(from_version)? {
        if migration == Migration::SharedSubtasks {
            assert!(database.legacy.is_consistent());
            database.store = Some(migrate_1_to_2_inner(&database.legacy)?);
            database.noted = SCHEMA_VERSION;
        }
    }
    Ok(())
}

struct Prepared {
    backup: Option<(String, i64)>,
    result: Result<(), TrackerError>,
}

/// Carries out the steps that bring a database up to date.
fn prepare(database: &mut Database) -> Prepared {
    let mut backup_path = None;
    let mut backup_version = 0;
    let version = detect_version(database.noted, &database.tables);
    let mut event = PrepareEvent::Detected(Ok(version));
    loop {
        event = match prepare_inner(event, &mut backup_path) {
            PrepareStep::Create => {
                create_latest_schema(database);
                database.noted = SCHEMA_VERSION;
                PrepareEvent::Created(Ok(()))
            }
            PrepareStep::BackUp(version) => {
                backup_version = detect_version(database.noted, &database.tables);
                PrepareEvent::BackedUp(version, Ok(backup_file_name(version)))
            }
            PrepareStep::Migrate(version) => PrepareEvent::Migrated(migrate(database, version)),
            PrepareStep::Finish(result) => {
                return Prepared { backup: backup_path.map(|path| (path, backup_version)), result }
            }
        };
    }
}

fn migrated(database: &Database) -> &Store {
    database.store.as_ref().expect("migrated tables")
}

fn subtask_names(database: &Database) -> Vec<String> {
    migrated(database).subtasks.iter().map(|subtask| subtask.name.clone()).collect()
}

fn entry_subtask_name(database: &Database, entry_id: i64) -> Option<String> {
    let store = migrated(database);
    let entry = store.entries.iter().find(|entry| entry.id == entry_id).expect("entry");
    let id = entry.subtask_id?;
    let subtask = store.subtasks.iter().find(|subtask| subtask.id == id).expect("subtask");
    Some(subtask.name.clone())
}

#[test]
fn fresh_database_is_created_at_the_current_version() {
    let mut database = empty_database();
    assert_eq!(detect_version(database.noted, &database.tables), EMPTY_VERSION);

    create_latest_schema(&mut database);
    database.noted = SCHEMA_VERSION;

    assert_eq!(detect_version(database.noted, &database.tables), SCHEMA_VERSION);
}

#[test]
fn pre_versioning_database_is_detected_as_version_one() {
    let database = legacy_database();

    assert_eq!(detect_version(database.noted, &database.tables), LEGACY_VERSION);
}

#[test]
fn migration_merges_the_same_subtask_across_tasks() {
    let mut database = legacy_database();
    insert_legacy_task(&mut database, 1, "First task");
    insert_legacy_task(&mut database, 2, "Second task");
    insert_legacy_subtask(&mut database, 1, 1, "Review", "2026-01-01T00:00:00Z");
    insert_legacy_subtask(&mut database, 2, 2, "Review", "2026-01-03T00:00:00Z");
    insert_legacy_entry(&mut database, 1, 1, Some(1));
    insert_legacy_entry(&mut database, 2, 2, Some(2));

    migrate(&mut database, LEGACY_VERSION).expect("run migrations");

    assert_eq!(subtask_names(&database), vec!["Review".to_owned()]);
    assert_eq!(entry_subtask_name(&database, 1).as_deref(), Some("Review"));
    assert_eq!(entry_subtask_name(&database, 2).as_deref(), Some("Review"));
    assert_eq!(database.noted, SCHEMA_VERSION);
}

#[test]
fn migration_merges_case_and_whitespace_variants_keeping_the_earliest_spelling() {
    let mut database = legacy_database();
    insert_legacy_task(&mut database, 1, "First task");
    insert_legacy_task(&mut database, 2, "Second task");
    insert_legacy_task(&mut database, 3, "Third task");
    insert_legacy_subtask(&mut database, 1, 1, "Deploy", "2026-01-01T00:00:00Z");
    insert_legacy_subtask(&mut database, 2, 2, "deploy", "2026-01-02T00:00:00Z");
    insert_legacy_subtask(&mut database, 3, 3, "  Deploy  ", "2026-01-03T00:00:00Z");
    insert_legacy_entry(&mut database, 1, 1, Some(1));
    insert_legacy_entry(&mut database, 2, 2, Some(2));
    insert_legacy_entry(&mut database, 3, 3, Some(3));

    migrate(&mut database, LEGACY_VERSION).expect("run migrations");

    assert_eq!(subtask_names(&database), vec!["Deploy".to_owned()]);
    for entry_id in 1..=3 {
        assert_eq!(entry_subtask_name(&database, entry_id).as_deref(), Some("Deploy"));
    }
}

#[test]
fn migration_keeps_distinct_subtasks_apart_and_remaps_every_entry() {
    let mut database = legacy_database();
    insert_legacy_task(&mut database, 1, "First task");
    insert_legacy_task(&mut database, 2, "Second task");
    // Identifiers are ordered so that a row-by-row remap would corrupt the
    // result: the new id assigned to "Review" collides with an old id that
    // has not been remapped yet.
    insert_legacy_subtask(&mut database, 5, 1, "Review", "2026-01-01T00:00:00Z");
    insert_legacy_subtask(&mut database, 1, 1, "Deploy", "2026-01-02T00:00:00Z");
    insert_legacy_subtask(&mut database, 3, 2, "Testing", "2026-01-03T00:00:00Z");
    insert_legacy_entry(&mut database, 1, 1, Some(5));
    insert_legacy_entry(&mut database, 2, 1, Some(1));
    insert_legacy_entry(&mut database, 3, 2, Some(3));
    insert_legacy_entry(&mut database, 4, 2, None);

    migrate(&mut database, LEGACY_VERSION).expect("run migrations");

    assert_eq!(
        subtask_names(&database),
        vec!["Review".to_owned(), "Deploy".to_owned(), "Testing".to_owned()]
    );
    assert_eq!(entry_subtask_name(&database, 1).as_deref(), Some("Review"));
    assert_eq!(entry_subtask_name(&database, 2).as_deref(), Some("Deploy"));
    assert_eq!(entry_subtask_name(&database, 3).as_deref(), Some("Testing"));
    assert_eq!(entry_subtask_name(&database, 4), None);
}

#[test]
fn migration_preserves_entry_identifiers_and_notes() {
    let mut database = legacy_database();
    insert_legacy_task(&mut database, 1, "First task");
    insert_legacy_subtask(&mut database, 1, 1, "Review", "2026-01-01T00:00:00Z");
    database.legacy.entries.push(TimeEntry {
        id: 7,
        task_id: 1,
        subtask_id: Some(1),
        started_at: "2026-01-02T09:00:00Z".to_owned(),
        ended_at: Some("2026-01-02T10:30:00Z".to_owned()),
        note: Some("a note".to_owned()),
    });

    migrate(&mut database, LEGACY_VERSION).expect("run migrations");

    let store = migrated(&database);
    let entry = store.entries.iter().find(|entry| entry.id == 7).expect("read migrated entry");
    assert_eq!(entry.task_id, 1);
    assert_eq!(entry.started_at, "2026-01-02T09:00:00Z");
    assert_eq!(entry.ended_at.as_deref(), Some("2026-01-02T10:30:00Z"));
    assert_eq!(entry.note.as_deref(), Some("a note"));
}

#[test]
fn migration_unlinks_blank_legacy_subtask_names_without_losing_entries() {
    let mut database = legacy_database();
    insert_legacy_task(&mut database, 1, "First task");
    insert_legacy_subtask(&mut database, 1, 1, "   ", "2026-01-01T00:00:00Z");
    insert_legacy_entry(&mut database, 1, 1, Some(1));

    migrate(&mut database, LEGACY_VERSION).expect("run migrations");

    assert!(subtask_names(&database).is_empty());
    assert_eq!(migrated(&database).entries.len(), 1);
    assert_eq!(entry_subtask_name(&database, 1), None);
}

#[test]
fn migration_leaves_new_rows_with_fresh_identifiers() {
    let mut database = legacy_database();
    insert_legacy_task(&mut database, 1, "First task");
    insert_legacy_subtask(&mut database, 1, 1, "Review", "2026-01-01T00:00:00Z");
    insert_legacy_entry(&mut database, 9, 1, Some(1));

    migrate(&mut database, LEGACY_VERSION).expect("run migrations");

    let mut store = database.store.expect("migrated tables");
    let timer = start_timer_inner_at(
        &mut store,
        StartTimerInput {
            task: TaskInput {
                name: "First task".to_owned(),
                github_kind: None,
                github_reference: None,
                github_state: None,
            },
            subtask_name: None,
            note: None,
        },
        at("2026-01-03T09:00:00Z"),
    )
    .expect("insert new entry");

    assert_eq!(timer.entry_id, 10, "new rows should not reuse migrated identifiers");
    assert_eq!(store.entries.iter().map(|entry| entry.id).max(), Some(10));
}

#[test]
fn migration_leaves_foreign_keys_enforced() {
    let mut database = legacy_database();
    insert_legacy_task(&mut database, 1, "First task");
    insert_legacy_subtask(&mut database, 1, 1, "Review", "2026-01-01T00:00:00Z");
    insert_legacy_entry(&mut database, 1, 1, Some(1));

    migrate(&mut database, LEGACY_VERSION).expect("run migrations");

    let mut store = database.store.expect("migrated tables");
    assert!(store.is_consistent());

    store.last_entry_id = 2;
    store.entries.push(TimeEntry {
        id: 2,
        task_id: 99,
        subtask_id: None,
        started_at: "2026-01-03T09:00:00Z".to_owned(),
        ended_at: None,
        note: None,
    });
    assert!(!store.is_consistent(), "unknown task should be rejected");
}

#[test]
fn migrated_subtasks_reject_duplicate_names() {
    let mut database = legacy_database();
    insert_legacy_task(&mut database, 1, "First task");
    insert_legacy_subtask(&mut database, 1, 1, "Review", "2026-01-01T00:00:00Z");

    migrate(&mut database, LEGACY_VERSION).expect("run migrations");

    let mut store = database.store.expect("migrated tables");
    assert!(store.is_consistent());
    store.last_subtask_id = 2;
    store.subtasks.push(SubtaskRow {
        id: 2,
        name: "Review".to_owned(),
        name_key: "review".to_owned(),
        archived_at: None,
        created_at: "2026-01-04T00:00:00Z".to_owned(),
    });
    assert!(!store.is_consistent(), "duplicate name keys should be rejected");
}

#[test]
fn database_from_a_newer_build_is_refused() {
    let mut database = empty_database();
    create_latest_schema(&mut database);
    database.noted = SCHEMA_VERSION + 1;

    let prepared = prepare(&mut database);

    assert!(prepared.backup.is_none());
    assert!(matches!(prepared.result, Err(TrackerError::SchemaTooNew { .. })));
    assert!(matches!(
        prepared.result,
        Err(TrackerError::SchemaTooNew { found: 3, supported: 2 })
    ));
}

#[test]
fn prepare_creates_a_fresh_database_without_a_backup() {
    let mut database = empty_database();

    let prepared = prepare(&mut database);

    assert!(prepared.result.is_ok());
    assert!(prepared.backup.is_none());
    assert_eq!(database.noted, SCHEMA_VERSION);
}

#[test]
fn prepare_backs_up_and_migrates_an_existing_database() {
    let mut database = legacy_database();
    insert_legacy_task(&mut database, 1, "First task");
    insert_legacy_subtask(&mut database, 1, 1, "Review", "2026-01-01T00:00:00Z");
    insert_legacy_entry(&mut database, 1, 1, Some(1));

    let prepared = prepare(&mut database);
    assert!(prepared.result.is_ok());

    let (path, version) = prepared.backup.expect("backup path");
    assert!(path.starts_with("tracker-backup-v1-20"));
    assert!(path.ends_with("Z.sqlite3"));
    assert_eq!(
        version, LEGACY_VERSION,
        "the backup should still hold the pre-migration schema"
    );
    assert_eq!(database.noted, SCHEMA_VERSION);
    assert_eq!(entry_subtask_name(&database, 1).as_deref(), Some("Review"));
}

#[test]
fn prepare_is_a_no_op_once_the_database_is_current() {
    let mut database = empty_database();

    assert!(prepare(&mut database).result.is_ok());
    let second = prepare(&mut database);

    assert!(second.result.is_ok());
    assert!(second.backup.is_none(), "an up to date database should not be copied");
}

#[test]
fn a_failed_migration_tells_where_the_backup_is() {
    let mut backup_path = None;
    assert!(matches!(
        prepare_inner(PrepareEvent::Detected(Ok(1)), &mut backup_path),
        PrepareStep::BackUp(1)
    ));
    assert!(matches!(
        prepare_inner(
            PrepareEvent::BackedUp(1, Ok("/data/copy.sqlite3".to_owned())),
            &mut backup_path
        ),
        PrepareStep::Migrate(1)
    ));
    let failed = prepare_inner(
        PrepareEvent::Migrated(Err(TrackerError::MigrationIntegrity(3))),
        &mut backup_path,
    );
    assert!(matches!(failed, PrepareStep::Finish(Err(TrackerError::MigrationIntegrity(3)))));
    assert_eq!(backup_path.as_deref(), Some("/data/copy.sqlite3"));
}

#[test]
fn a_backup_that_fails_stops_the_migration() {
    let mut backup_path = None;
    let step = prepare_inner(
        PrepareEvent::BackedUp(1, Err(TrackerError::Io("disk full".to_owned()))),
        &mut backup_path,
    );
    assert!(matches!(step, PrepareStep::Finish(Err(TrackerError::Io(_)))));
    assert_eq!(backup_path, None);
    let step = prepare_inner(
        PrepareEvent::Detected(Err(TrackerError::MissingDataDir)),
        &mut backup_path,
    );
    assert!(matches!(step, PrepareStep::Finish(Err(TrackerError::MissingDataDir))));
}

#[test]
fn entries_without_a_task_stop_the_migration() {
    let mut database = legacy_database();
    insert_legacy_task(&mut database, 1, "First task");
    insert_legacy_entry(&mut database, 1, 1, None);
    insert_legacy_entry(&mut database, 2, 8, None);
    insert_legacy_entry(&mut database, 3, 9, None);

    let result = migrate(&mut database, LEGACY_VERSION);

    assert!(matches!(result, Err(TrackerError::MigrationIntegrity(2))));
    assert!(database.store.is_none());
    assert_eq!(database.noted, 0);
}

#[test]
fn entries_of_a_missing_subtask_lose_it() {
    let mut database = legacy_database();
    insert_legacy_task(&mut database, 1, "First task");
    insert_legacy_entry(&mut database, 1, 1, Some(12));
    migrate(&mut database, LEGACY_VERSION).expect("run migrations");
    assert_eq!(entry_subtask_name(&database, 1), None);
}

#[test]
fn of_spellings_made_together_the_lower_identifier_wins() {
    let mut database = legacy_database();
    insert_legacy_task(&mut database, 1, "First task");
    insert_legacy_subtask(&mut database, 4, 1, "REVIEW", "2026-01-01T00:00:00Z");
    insert_legacy_subtask(&mut database, 2, 1, "Review", "2026-01-01T00:00:00Z");
    insert_legacy_subtask(&mut database, 9, 1, "Äpfel  Übung", "2025-01-01T00:00:00Z");
    insert_legacy_subtask(&mut database, 8, 1, "äpfel übung", "2025-02-01T00:00:00Z");
    migrate(&mut database, LEGACY_VERSION).expect("run migrations");
    let store = migrated(&database);
    assert_eq!(subtask_names(&database), vec!["Äpfel Übung".to_owned(), "Review".to_owned()]);
    assert_eq!(store.subtasks[0].id, 1);
    assert_eq!(store.subtasks[0].name_key, "äpfel übung");
    assert_eq!(store.subtasks[0].created_at, "2025-01-01T00:00:00Z");
    assert_eq!(store.last_subtask_id, 2);
    assert_eq!(store.last_entry_id, 0);
    assert_eq!(store.last_task_id, 1);
}

#[test]
fn legacy_rows_out_of_order_are_noticed() {
    let mut legacy = empty_legacy();
    assert!(legacy.is_consistent());
    for id in [2, 1] {
        legacy.subtasks.push(LegacySubtask {
            id,
            task_id: 1,
            name: "Review".to_owned(),
            created_at: "2026-01-01T00:00:00Z".to_owned(),
        });
    }
    assert!(!legacy.is_consistent());
}

#[test]
fn versions_without_a_migration_are_reported() {
    assert_eq!(run_migrations(2).expect("plan"), vec![]);
    assert_eq!(
        run_migrations(1).expect("plan"),
        vec![Migration::ApplyV1Schema, Migration::SharedSubtasks]
    );
    assert!(matches!(run_migrations(0), Err(TrackerError::MissingMigration(1))));
    assert!(matches!(run_migrations(-7), Err(TrackerError::MissingMigration(-6))));
}

#[test]
fn versions_are_told_from_the_note_or_the_tables() {
    let other = vec!["sqlite_sequence".to_owned(), "Tasks".to_owned()];
    assert!(!has_tracker_tables(&other));
    assert!(has_tracker_tables(&vec!["x".to_owned(), "time_entries".to_owned()]));
    assert_eq!(detect_version(0, &other), 0);
    assert_eq!(detect_version(-3, &tracker_tables()), 1);
    assert_eq!(detect_version(7, &other), 7);
}

#[test]
fn copies_are_named_after_the_version_and_the_time() {
    assert_eq!(
        backup_file_name_at(1, at("2026-01-31T09:30:05Z")),
        "tracker-backup-v1-20260131T093005Z.sqlite3"
    );
    assert_eq!(backup_file_name(1).len(), "tracker-backup-v1-20260131T093005Z.sqlite3".len());
}

#[test]
fn missing_columns_are_added() {
    let columns = vec!["id".to_owned(), "name".to_owned()];
    assert_eq!(
        ensure_column(&columns, "tasks", "closed_at", "TEXT").as_deref(),
        Some("ALTER TABLE tasks ADD COLUMN closed_at TEXT")
    );
    assert_eq!(ensure_column(&columns, "tasks", "name", "TEXT"), None);
}

#[test]
fn requests_are_refused_after_a_failed_migration() {
    let state = AppState {
        backup_path: Some("/data/copy.sqlite3".to_owned()),
        migration_error: Some("it broke".to_owned()),
    };
    match state.connect() {
        Err(TrackerError::DatabaseUnavailable(message)) => assert_eq!(message, "it broke"),
        _ => panic!("the request should be refused"),
    }
    let status = database_status_inner(&state, Some(1));
    assert!(!status.ok);
    assert_eq!(status.schema_version, 2);
    assert_eq!(status.database_version, Some(1));
    assert_eq!(status.message.as_deref(), Some("it broke"));
    assert_eq!(status.backup_path.as_deref(), Some("/data/copy.sqlite3"));

    let state = AppState { backup_path: None, migration_error: None };
    assert!(state.connect().is_ok());
    assert!(database_status_inner(&state, None).ok);
}
