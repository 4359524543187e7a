use tracker::clock::{parse_instant, Timestamp};
use tracker::error::{DatabaseFault, TrackerError};
use tracker::records::{StartTimerInput, TaskInput};
use tracker::store::Store;
use tracker::tasks::list_tasks_inner;
use tracker::timers::{
    active_timer_inner, active_timer_inner_at, close_task_conn, close_task_conn_at,
    latest_subtask_name_for_task, start_existing_task_inner, start_existing_task_inner_at,
    start_timer_inner, start_timer_inner_at, stop_timer_inner, stop_timer_inner_at,
};

fn at(text: &str) -> Timestamp {
    parse_instant(text).expect("an instant")
}

fn input(task: &str, subtask: Option<&str>, note: Option<&str>) -> StartTimerInput {
    StartTimerInput {
        task: TaskInput {
            name: task.to_owned(),
            github_kind: None,
            github_reference: None,
            github_state: None,
        },
        subtask_name: subtask.map(|text| text.to_owned()),
        note: note.map(|text| text.to_owned()),
    }
}

fn running(store: &Store) -> Vec<i64> {
    store.entries.iter().filter(|entry| entry.ended_at.is_none()).map(|entry| entry.id).collect()
}

#[test]
fn starting_a_timer_records_an_entry() {
    let mut store = Store::new();
    let timer = start_timer_inner_at(
        &mut store,
        input(" Task ", Some(" Code  review "), Some(" with notes ")),
        at("2026-01-02T09:00:00Z"),
    )
    .expect("timer");
    assert_eq!(timer.entry_id, 1);
    assert_eq!(timer.task.name, "Task");
    assert_eq!(timer.subtask.as_ref().expect("subtask").name, "Code review");
    assert_eq!(timer.started_at, "2026-01-02T09:00:00Z");
    assert_eq!(timer.elapsed_seconds, 0);
    assert_eq!(timer.note, None);
    assert_eq!(store.entries[0].note.as_deref(), Some("with notes"));
    assert_eq!(store.entries[0].subtask_id, Some(1));
    assert!(store.is_consistent());
}

#[test]
fn only_the_started_timer_runs() {
    let mut store = Store::new();
    start_timer_inner_at(&mut store, input("A", None, None), at("2026-01-02T09:00:00Z"))
        .expect("timer");
    let second =
        start_timer_inner_at(&mut store, input("B", None, None), at("2026-01-02T10:00:00Z"))
            .expect("timer");
    assert_eq!(running(&store), vec![second.entry_id]);
    assert_eq!(store.entries[0].ended_at.as_deref(), Some("2026-01-02T10:00:00Z"));
    let active = active_timer_inner_at(&store, at("2026-01-02T10:00:42Z")).expect("active");
    assert_eq!(active.entry_id, second.entry_id);
    assert_eq!(active.task.name, "B");
    assert_eq!(active.elapsed_seconds, 42);
    assert!(active.subtask.is_none());
}

#[test]
fn a_refused_start_leaves_the_running_timer_alone() {
    let mut store = Store::new();
    let first =
        start_timer_inner_at(&mut store, input("A", None, None), at("2026-01-02T09:00:00Z"))
            .expect("timer");
    let error = start_timer_inner(&mut store, input("   ", None, None));
    assert!(matches!(error, Err(TrackerError::MissingTaskName)));
    assert_eq!(running(&store), vec![first.entry_id]);

    store.last_entry_id = i64::MAX;
    let error = start_timer_inner(&mut store, input("B", Some("Review"), None));
    assert!(matches!(error, Err(TrackerError::Database(DatabaseFault::Full))));
    assert_eq!(running(&store), vec![first.entry_id]);
    assert_eq!(store.tasks.len(), 1);
    assert!(store.subtasks.is_empty());
}

#[test]
fn a_stopped_timer_shows_its_time() {
    let mut store = Store::new();
    assert!(stop_timer_inner(&mut store).is_none());
    start_timer_inner_at(&mut store, input("A", Some("Review"), None), at("2026-01-02T09:00:00Z"))
        .expect("timer");
    let entry = stop_timer_inner_at(&mut store, at("2026-01-02T10:30:15Z")).expect("entry");
    assert_eq!(entry.id, 1);
    assert_eq!(entry.task_name, "A");
    assert_eq!(entry.subtask_name.as_deref(), Some("Review"));
    assert_eq!(entry.ended_at.as_deref(), Some("2026-01-02T10:30:15Z"));
    assert_eq!(entry.duration_seconds, 5415);
    assert!(running(&store).is_empty());
    assert!(active_timer_inner(&store).is_none());
}

#[test]
fn a_clock_set_back_records_no_time() {
    let mut store = Store::new();
    start_timer_inner_at(&mut store, input("A", None, None), at("2026-01-02T09:00:00Z"))
        .expect("timer");
    let entry = stop_timer_inner_at(&mut store, at("2026-01-02T08:00:00Z")).expect("entry");
    assert_eq!(entry.duration_seconds, 0);
}

#[test]
fn of_several_running_entries_the_newest_is_stopped() {
    let mut store = Store::new();
    for text in ["2026-01-02T09:00:00Z", "2026-01-02T11:00:00Z", "2026-01-02T10:00:00Z"] {
        start_timer_inner_at(&mut store, input("A", None, None), at(text)).expect("timer");
    }
    for entry in store.entries.iter_mut() {
        entry.ended_at = None;
    }
    assert_eq!(active_timer_inner(&store).expect("active").entry_id, 2);
    let entry = stop_timer_inner_at(&mut store, at("2026-01-02T12:00:00Z")).expect("entry");
    assert_eq!(entry.id, 2);
    assert_eq!(running(&store), vec![1, 3]);
    assert_eq!(active_timer_inner(&store).expect("active").entry_id, 3);
}

#[test]
fn an_existing_task_starts_with_its_last_subtask() {
    let mut store = Store::new();
    start_timer_inner_at(&mut store, input("A", Some("Review"), None), at("2026-01-02T09:00:00Z"))
        .expect("timer");
    start_timer_inner_at(&mut store, input("A", Some("Deploy"), None), at("2026-01-02T10:00:00Z"))
        .expect("timer");
    start_timer_inner_at(&mut store, input("B", Some("Review"), None), at("2026-01-02T11:00:00Z"))
        .expect("timer");
    assert_eq!(latest_subtask_name_for_task(&store, 1).as_deref(), Some("Deploy"));
    assert_eq!(latest_subtask_name_for_task(&store, 7), None);
    close_task_conn(&mut store, 1);
    let timer = start_existing_task_inner_at(&mut store, 1, at("2026-01-02T12:00:00Z"))
        .expect("timer");
    assert_eq!(timer.task.id, 1);
    assert_eq!(timer.task.closed_at, None, "a task that is timed is open");
    assert_eq!(timer.subtask.expect("subtask").name, "Deploy");
    assert_eq!(running(&store), vec![timer.entry_id]);
}

#[test]
fn a_task_without_a_last_subtask_starts_without_one() {
    let mut store = Store::new();
    start_timer_inner_at(&mut store, input("A", Some("Review"), None), at("2026-01-02T09:00:00Z"))
        .expect("timer");
    start_timer_inner_at(&mut store, input("A", None, None), at("2026-01-02T10:00:00Z"))
        .expect("timer");
    let timer = start_existing_task_inner(&mut store, 1).expect("timer");
    assert!(timer.subtask.is_none());
}

#[test]
fn a_task_that_is_gone_is_not_started() {
    let mut store = Store::new();
    let error = start_existing_task_inner(&mut store, 3);
    assert!(matches!(error, Err(TrackerError::Database(DatabaseFault::NoRows))));
    assert!(store.tasks.is_empty());
}

#[test]
fn closing_a_task_leaves_others_running() {
    let mut store = Store::new();
    start_timer_inner_at(&mut store, input("A", None, None), at("2026-01-02T09:00:00Z"))
        .expect("timer");
    start_timer_inner_at(&mut store, input("B", None, None), at("2026-01-02T10:00:00Z"))
        .expect("timer");
    store.entries[0].ended_at = None;
    close_task_conn_at(&mut store, 1, at("2026-01-02T11:00:00Z"));
    assert_eq!(running(&store), vec![2]);
    assert_eq!(store.entries[0].ended_at.as_deref(), Some("2026-01-02T11:00:00Z"));
    assert_eq!(store.tasks[0].closed_at.as_deref(), Some("2026-01-02T11:00:00Z"));
    assert_eq!(store.tasks[0].updated_at, "2026-01-02T11:00:00Z");
    assert_eq!(store.tasks[1].closed_at, None);
    let open = list_tasks_inner(&store);
    assert_eq!(open.len(), 1);
    assert_eq!(open[0].task.name, "B");
    close_task_conn(&mut store, 99);
    assert_eq!(list_tasks_inner(&store).len(), 1);
}
