//! The tables of the library against the same tables in SQLite.

use rusqlite::{Connection, OptionalExtension};
use tracker::changes::changes;
use tracker::clock::{parse_instant, utc_now, ReportRange, Timestamp};
use tracker::entries::recent_entries_inner_at;
use tracker::migration::{migrate_1_to_2_inner, LegacyStore, LegacySubtask};
use tracker::records::{
    CreateSubtaskInput, RenameSubtaskInput, SetSubtaskArchivedInput, StartTimerInput, SubtaskRow,
    Task, TaskInput, TimeEntry, UpdateEntrySubtaskInput,
};
use tracker::reports::report_entries_inner_at;
use tracker::store::Store;
use tracker::subtasks::{
    all_subtasks, create_subtask_conn, rename_subtask_conn, set_subtask_archived_conn,
    update_time_entry_subtask_inner,
};
use tracker::tasks::{create_task_inner, list_tasks_inner, subtasks_for_task};
use tracker::timers::{
    active_timer_inner, close_task_conn, latest_subtask_name_for_task, start_timer_inner_at,
    stop_timer_inner_at,
};

const SCHEMA: &str = "
    PRAGMA foreign_keys = ON;
    CREATE TABLE tasks (
        id INTEGER PRIMARY KEY AUTOINCREMENT,
        name TEXT NOT NULL UNIQUE,
        github_kind TEXT, github_reference TEXT, github_state TEXT, github_checked_at TEXT,
        closed_at TEXT, created_at TEXT NOT NULL, updated_at TEXT NOT NULL
    );
    CREATE TABLE subtasks (
        id INTEGER PRIMARY KEY AUTOINCREMENT,
        name TEXT NOT NULL, name_key TEXT NOT NULL UNIQUE,
        archived_at TEXT, created_at TEXT NOT NULL
    );
    CREATE TABLE time_entries (
        id INTEGER PRIMARY KEY AUTOINCREMENT,
        task_id INTEGER NOT NULL, subtask_id INTEGER,
        started_at TEXT NOT NULL, ended_at TEXT, note TEXT,
        FOREIGN KEY(task_id) REFERENCES tasks(id) ON DELETE CASCADE,
        FOREIGN KEY(subtask_id) REFERENCES subtasks(id) ON DELETE SET NULL
    );
    CREATE INDEX idx_time_entries_started_at ON time_entries(started_at);
";

fn at(text: &str) -> Timestamp {
    parse_instant(text).expect("an instant")
}

/// Numbers that look random and are the same on every run.
struct Numbers(u64);

impl Numbers {
    fn below(&mut self, bound: u64) -> u64 {
        self.0 = self.0.wrapping_mul(6364136223846793005).wrapping_add(1442695040888963407);
        (self.0 >> 33) % bound
    }
}

fn database() -> Connection {
    let conn = Connection::open_in_memory().expect("open");
    conn.execute_batch(SCHEMA).expect("schema");
    conn
}

/// Writes down what a request changed.
fn apply(conn: &mut Connection, before: &Store, after: &Store) {
    let tx = conn.transaction().expect("begin");
    let changed = changes(before, after);
    for row in &changed.tasks {
        tx.execute(
            "INSERT INTO tasks VALUES (?1, ?2, ?3, ?4, ?5, ?6, ?7, ?8, ?9)
             ON CONFLICT(id) DO UPDATE SET name = ?2, github_kind = ?3, github_reference = ?4,
                 github_state = ?5, github_checked_at = ?6, closed_at = ?7, created_at = ?8,
                 updated_at = ?9",
            (
                row.id,
                &row.name,
                &row.github_kind,
                &row.github_reference,
                &row.github_state,
                &row.github_checked_at,
                &row.closed_at,
                &row.created_at,
                &row.updated_at,
            ),
        )
        .expect("task");
    }
    for row in &changed.subtasks {
        tx.execute(
            "INSERT INTO subtasks VALUES (?1, ?2, ?3, ?4, ?5)
             ON CONFLICT(id) DO UPDATE SET name = ?2, name_key = ?3, archived_at = ?4,
                 created_at = ?5",
            (row.id, &row.name, &row.name_key, &row.archived_at, &row.created_at),
        )
        .expect("subtask");
    }
    for row in &changed.entries {
        tx.execute(
            "INSERT INTO time_entries VALUES (?1, ?2, ?3, ?4, ?5, ?6)
             ON CONFLICT(id) DO UPDATE SET task_id = ?2, subtask_id = ?3, started_at = ?4,
                 ended_at = ?5, note = ?6",
            (row.id, row.task_id, row.subtask_id, &row.started_at, &row.ended_at, &row.note),
        )
        .expect("entry");
    }
    for row in &changed.removed_subtasks {
        tx.execute("DELETE FROM subtasks WHERE id = ?1", (row.id,)).expect("remove");
    }
    tx.commit().expect("commit");
}

fn last_id(conn: &Connection, table: &str) -> i64 {
    conn.query_row("SELECT seq FROM sqlite_sequence WHERE name = ?1", (table,), |row| row.get(0))
        .optional()
        .expect("sequence")
        .unwrap_or(0)
}

/// Reads the tables back.
fn load(conn: &Connection) -> Store {
    let mut store = Store::new();
    let mut stmt = conn.prepare("SELECT * FROM tasks ORDER BY id").expect("prepare");
    store.tasks = stmt
        .query_map([], |row| {
            Ok(Task {
                id: row.get(0)?,
                name: row.get(1)?,
                github_kind: row.get(2)?,
                github_reference: row.get(3)?,
                github_state: row.get(4)?,
                github_checked_at: row.get(5)?,
                closed_at: row.get(6)?,
                created_at: row.get(7)?,
                updated_at: row.get(8)?,
            })
        })
        .expect("query")
        .map(|row| row.expect("row"))
        .collect();
    let mut stmt = conn.prepare("SELECT * FROM subtasks ORDER BY id").expect("prepare");
    store.subtasks = stmt
        .query_map([], |row| {
            Ok(SubtaskRow {
                id: row.get(0)?,
                name: row.get(1)?,
                name_key: row.get(2)?,
                archived_at: row.get(3)?,
                created_at: row.get(4)?,
            })
        })
        .expect("query")
        .map(|row| row.expect("row"))
        .collect();
    let mut stmt = conn.prepare("SELECT * FROM time_entries ORDER BY id").expect("prepare");
    store.entries = stmt
        .query_map([], |row| {
            Ok(TimeEntry {
                id: row.get(0)?,
                task_id: row.get(1)?,
                subtask_id: row.get(2)?,
                started_at: row.get(3)?,
                ended_at: row.get(4)?,
                note: row.get(5)?,
            })
        })
        .expect("query")
        .map(|row| row.expect("row"))
        .collect();
    store.last_task_id = last_id(conn, "tasks");
    store.last_subtask_id = last_id(conn, "subtasks");
    store.last_entry_id = last_id(conn, "time_entries");
    store
}

fn same_tables(a: &Store, b: &Store) -> bool {
    let changed = changes(a, b);
    changed.tasks.is_empty()
        && changed.subtasks.is_empty()
        && changed.entries.is_empty()
        && changed.removed_subtasks.is_empty()
        && a.tasks.len() == b.tasks.len()
        && a.subtasks.len() == b.subtasks.len()
        && a.entries.len() == b.entries.len()
        && a.last_task_id == b.last_task_id
        && a.last_subtask_id == b.last_subtask_id
        && a.last_entry_id == b.last_entry_id
}

fn task_input(name: &str) -> TaskInput {
    TaskInput {
        name: name.to_owned(),
        github_kind: None,
        github_reference: None,
        github_state: None,
    }
}

const TASKS: [&str; 5] = ["Alpha", "beta", "Äther", "alpha 2", "Zulu"];
const SUBTASKS: [&str; 7] = ["Review", " review ", "Deploy", "Écrire", "test", "TEST", "write"];

/// Makes one request, at an instant that is later on every turn.
fn request(store: &mut Store, numbers: &mut Numbers, turn: i64) {
    let now = Timestamp { secs: at("2026-01-01T00:00:00Z").secs + 977 * turn, nanos: 0 };
    let task = TASKS[numbers.below(5) as usize];
    let subtask = SUBTASKS[numbers.below(7) as usize];
    let some_task = 1 + numbers.below(6) as i64;
    let some_subtask = 1 + numbers.below(9) as i64;
    match numbers.below(8) {
        0 => {
            let _ = create_task_inner(store, task_input(task));
        }
        1 => {
            let input = CreateSubtaskInput { name: subtask.to_owned() };
            let _ = create_subtask_conn(store, input);
        }
        2 => {
            let input =
                RenameSubtaskInput { subtask_id: some_subtask, name: subtask.to_owned() };
            let _ = rename_subtask_conn(store, input);
        }
        3 => {
            let input = SetSubtaskArchivedInput {
                subtask_id: some_subtask,
                archived: numbers.below(2) == 0,
            };
            let _ = set_subtask_archived_conn(store, input);
        }
        4 => close_task_conn(store, some_task),
        5 => {
            let _ = stop_timer_inner_at(store, now);
        }
        6 => {
            let input = UpdateEntrySubtaskInput {
                entry_id: 1 + numbers.below(20) as i64,
                subtask_name: Some(subtask.to_owned()),
            };
            let _ = update_time_entry_subtask_inner(store, input);
        }
        _ => {
            let subtask_name =
                if numbers.below(3) == 0 { None } else { Some(subtask.to_owned()) };
            let input = StartTimerInput { task: task_input(task), subtask_name, note: None };
            let _ = start_timer_inner_at(store, input, now);
        }
    }
}

/// Tables after some requests.
fn worked_on(numbers: &mut Numbers, turns: i64) -> Store {
    let mut store = Store::new();
    for turn in 0..turns {
        request(&mut store, numbers, turn);
    }
    store
}

#[test]
fn requests_written_to_sqlite_are_read_back() {
    let mut numbers = Numbers(11);
    let mut conn = database();
    let mut store = Store::new();
    for turn in 0..300 {
        let before = store.duplicate();
        request(&mut store, &mut numbers, turn);
        apply(&mut conn, &before, &store);
        let read = load(&conn);
        assert!(read.is_consistent());
        assert!(same_tables(&store, &read), "turn {turn}");
    }
    assert!(store.entries.len() > 20);
    assert!(store.last_subtask_id > store.subtasks.len() as i64, "some subtasks were merged");
}

fn texts(conn: &Connection, sql: &str) -> Vec<String> {
    let mut stmt = conn.prepare(sql).expect("prepare");
    let rows = stmt.query_map([], |row| row.get(0)).expect("query");
    rows.map(|row| row.expect("row")).collect()
}

fn numbers_of(conn: &Connection, sql: &str) -> Vec<i64> {
    let mut stmt = conn.prepare(sql).expect("prepare");
    let rows = stmt.query_map([], |row| row.get(0)).expect("query");
    rows.map(|row| row.expect("row")).collect()
}

#[test]
fn lists_are_those_that_sqlite_gives() {
    for seed in 0..8 {
        let mut numbers = Numbers(seed);
        let mut conn = database();
        let store = worked_on(&mut numbers, 120);
        apply(&mut conn, &Store::new(), &store);
        let now = utc_now();

        let open: Vec<String> =
            list_tasks_inner(&store).into_iter().map(|item| item.task.name).collect();
        assert_eq!(
            open,
            texts(
                &conn,
                "SELECT name FROM tasks WHERE closed_at IS NULL
                 ORDER BY updated_at DESC, name ASC"
            )
        );

        let names: Vec<String> =
            all_subtasks(&store).into_iter().map(|subtask| subtask.name).collect();
        assert_eq!(names, texts(&conn, "SELECT name FROM subtasks ORDER BY name ASC"));

        let recent: Vec<i64> =
            recent_entries_inner_at(&store, 7, now).into_iter().map(|entry| entry.id).collect();
        assert_eq!(
            recent,
            numbers_of(
                &conn,
                "SELECT e.id FROM time_entries e JOIN tasks t ON t.id = e.task_id
                 LEFT JOIN subtasks s ON s.id = e.subtask_id
                 ORDER BY e.started_at DESC LIMIT 7"
            )
        );
        assert_eq!(
            recent_entries_inner_at(&store, -1, now).len(),
            numbers_of(&conn, "SELECT id FROM time_entries LIMIT -1").len()
        );

        let active = active_timer_inner(&store).map(|timer| timer.entry_id);
        let found = numbers_of(
            &conn,
            "SELECT id FROM time_entries WHERE ended_at IS NULL ORDER BY started_at DESC LIMIT 1",
        );
        assert_eq!(active, found.first().copied());

        for task in &store.tasks {
            let used: Vec<String> = subtasks_for_task(&store, task.id)
                .into_iter()
                .map(|subtask| subtask.name)
                .collect();
            assert_eq!(
                used,
                texts(
                    &conn,
                    &format!(
                        "SELECT s.name, MAX(e.started_at) AS last_used FROM time_entries e
                         JOIN subtasks s ON s.id = e.subtask_id WHERE e.task_id = {}
                         GROUP BY s.id ORDER BY last_used DESC",
                        task.id
                    )
                )
            );
            let latest: Option<Option<String>> = conn
                .query_row(
                    "SELECT s.name FROM time_entries e
                     LEFT JOIN subtasks s ON s.id = e.subtask_id
                     WHERE e.task_id = ?1 ORDER BY e.started_at DESC LIMIT 1",
                    (task.id,),
                    |row| row.get(0),
                )
                .optional()
                .expect("query");
            assert_eq!(latest_subtask_name_for_task(&store, task.id), latest.flatten());
        }
    }
}

#[test]
fn ranges_are_those_that_sqlite_selects() {
    let mut numbers = Numbers(5);
    let mut conn = database();
    let store = worked_on(&mut numbers, 150);
    apply(&mut conn, &Store::new(), &store);
    let now = at("2026-01-03T00:00:00Z");
    for (start, end) in [
        ("2026-01-01T00:00:00Z", "2026-01-01T12:00:00Z"),
        ("2026-01-01T06:00:00Z", "2026-01-02T00:00:00Z"),
        ("2026-01-02T00:00:00Z", "2026-01-04T00:00:00Z"),
    ] {
        let range = ReportRange { start: at(start), end: at(end) };
        let entries = report_entries_inner_at(&store, Some(&range), now).expect("report");
        let found: Vec<i64> = entries.iter().map(|entry| entry.id).collect();
        let sql = format!(
            "SELECT id FROM time_entries
             WHERE started_at < '{end}' AND COALESCE(ended_at, '2026-01-03T00:00:00Z') >= '{start}'
               AND unixepoch(MIN(COALESCE(ended_at, '2026-01-03T00:00:00Z'), '{end}'))
                   > unixepoch(MAX(started_at, '{start}'))
             ORDER BY started_at DESC"
        );
        assert_eq!(found, numbers_of(&conn, &sql));
        assert!(!found.is_empty());
    }
}

#[test]
fn identifiers_are_given_out_as_sqlite_does() {
    let conn = database();
    let mut store = Store::new();
    for (name, key) in [("A", "a"), ("B", "b")] {
        conn.execute(
            "INSERT INTO subtasks (name, name_key, created_at) VALUES (?1, ?2, 'x')",
            (name, key),
        )
        .expect("insert");
        create_subtask_conn(&mut store, CreateSubtaskInput { name: name.to_owned() })
            .expect("create");
    }
    conn.execute("DELETE FROM subtasks WHERE id = 2", []).expect("delete");
    let merged = rename_subtask_conn(
        &mut store,
        RenameSubtaskInput { subtask_id: 2, name: "a".to_owned() },
    );
    assert_eq!(merged.expect("merge").len(), 1);
    conn.execute("INSERT INTO subtasks (name, name_key, created_at) VALUES ('C', 'c', 'x')", [])
        .expect("insert");
    create_subtask_conn(&mut store, CreateSubtaskInput { name: "C".to_owned() }).expect("create");
    assert_eq!(conn.last_insert_rowid(), 3);
    assert_eq!(store.subtasks[1].id, 3);
}

#[test]
fn the_shared_list_is_the_one_that_sqlite_makes() {
    let mut numbers = Numbers(23);
    let conn = Connection::open_in_memory().expect("open");
    conn.execute_batch(
        "CREATE TABLE old_subtasks (id INTEGER PRIMARY KEY, name TEXT, created_at TEXT);
         CREATE TABLE subtasks (id INTEGER PRIMARY KEY AUTOINCREMENT, name TEXT,
             name_key TEXT NOT NULL UNIQUE, created_at TEXT);",
    )
    .expect("schema");
    let mut legacy = LegacyStore {
        tasks: Vec::new(),
        subtasks: Vec::new(),
        entries: Vec::new(),
        last_task_id: 0,
    };
    for id in 1..60 {
        let name = SUBTASKS[numbers.below(7) as usize];
        let name = if numbers.below(9) == 0 { "  " } else { name };
        let created_at = format!("2026-01-0{}T00:00:00Z", 1 + numbers.below(6));
        conn.execute("INSERT INTO old_subtasks VALUES (?1, ?2, ?3)", (id, name, &created_at))
            .expect("insert");
        legacy.subtasks.push(LegacySubtask { id, task_id: 1, name: name.to_owned(), created_at });
    }
    let mut stmt = conn
        .prepare("SELECT name, created_at FROM old_subtasks ORDER BY created_at ASC, id ASC")
        .expect("prepare");
    let rows = stmt
        .query_map([], |row| Ok((row.get::<_, String>(0)?, row.get::<_, String>(1)?)))
        .expect("query");
    for row in rows {
        let (name, created_at) = row.expect("row");
        let shown = name.split_whitespace().collect::<Vec<_>>().join(" ");
        if !shown.is_empty() {
            conn.execute(
                "INSERT OR IGNORE INTO subtasks (name, name_key, created_at) VALUES (?1, ?2, ?3)",
                (&shown, shown.to_lowercase(), &created_at),
            )
            .expect("insert");
        }
    }
    let store = migrate_1_to_2_inner(&legacy).expect("migrate");
    let names: Vec<String> = store.subtasks.iter().map(|row| row.name.clone()).collect();
    let created: Vec<String> = store.subtasks.iter().map(|row| row.created_at.clone()).collect();
    assert_eq!(names, texts(&conn, "SELECT name FROM subtasks ORDER BY id"));
    assert_eq!(created, texts(&conn, "SELECT created_at FROM subtasks ORDER BY id"));
}
