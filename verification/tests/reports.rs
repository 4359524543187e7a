use tracker::changes::changes;
use tracker::clock::{parse_instant, ReportRange, Timestamp};
use tracker::entries::{recent_entries_inner, recent_entries_inner_at, recent_limit};
use tracker::error::{TimeFault, TrackerError};
use tracker::records::{RenameSubtaskInput, TaskInput, TimeEntry, TimeEntryView};
use tracker::reports::{report_entries_inner, report_entries_inner_at};
use tracker::store::{upsert_subtask, upsert_task, Store};
use tracker::subtasks::rename_subtask_conn;
use tracker::summaries::{
    summarize_by_subtask, summarize_by_task, summarize_by_task_and_subtask,
    summary_by_subtask_inner_at, summary_by_task_and_subtask_inner_at, summary_by_task_inner,
    summary_by_task_inner_at,
};
use tracker::timers::close_task_conn;

fn at(text: &str) -> Timestamp {
    parse_instant(text).expect("an instant")
}

fn add_task(store: &mut Store, name: &str) -> i64 {
    let input = TaskInput {
        name: name.to_owned(),
        github_kind: None,
        github_reference: None,
        github_state: None,
    };
    upsert_task(store, &input, "2026-01-01T00:00:00Z").expect("task").id
}

fn add_subtask(store: &mut Store, name: &str) -> i64 {
    upsert_subtask(store, name, "2026-01-01T00:00:00Z").expect("subtask").id
}

fn add_entry(
    store: &mut Store,
    task_id: i64,
    subtask_id: Option<i64>,
    started_at: &str,
    ended_at: Option<&str>,
) -> i64 {
    let id = store.last_entry_id + 1;
    store.entries.push(TimeEntry {
        id,
        task_id,
        subtask_id,
        started_at: started_at.to_owned(),
        ended_at: ended_at.map(|text| text.to_owned()),
        note: None,
    });
    store.last_entry_id = id;
    id
}

/// Two tasks, two subtasks and five entries, the last of which runs.
fn sample() -> Store {
    let mut store = Store::new();
    let a = add_task(&mut store, "Alpha");
    let b = add_task(&mut store, "Beta");
    let review = add_subtask(&mut store, "Review");
    let deploy = add_subtask(&mut store, "Deploy");
    add_entry(&mut store, a, Some(review), "2026-01-02T09:00:00Z", Some("2026-01-02T10:00:00Z"));
    add_entry(&mut store, b, Some(review), "2026-01-03T09:00:00Z", Some("2026-01-03T12:00:00Z"));
    add_entry(&mut store, a, Some(deploy), "2026-01-04T09:00:00Z", Some("2026-01-04T09:10:00Z"));
    add_entry(&mut store, a, None, "2026-01-05T23:00:00Z", Some("2026-01-06T01:00:00Z"));
    add_entry(&mut store, b, Some(review), "2026-01-07T09:00:00Z", None);
    store
}

fn ids(entries: &[TimeEntryView]) -> Vec<i64> {
    entries.iter().map(|entry| entry.id).collect()
}

#[test]
fn recent_entries_come_newest_first() {
    let store = sample();
    let now = at("2026-01-07T09:01:00Z");
    assert_eq!(ids(&recent_entries_inner_at(&store, 3, now)), vec![5, 4, 3]);
    assert_eq!(ids(&recent_entries_inner_at(&store, -1, now)), vec![5, 4, 3, 2, 1]);
    assert_eq!(ids(&recent_entries_inner_at(&store, 0, now)), Vec::<i64>::new());
    assert_eq!(ids(&recent_entries_inner(&store, 10)), vec![5, 4, 3, 2, 1]);
    let shown = recent_entries_inner_at(&store, 1, now);
    assert_eq!(shown[0].duration_seconds, 60);
    assert_eq!(shown[0].ended_at, None);
}

#[test]
fn entries_that_started_together_come_by_identifier() {
    let mut store = sample();
    for entry in store.entries.iter_mut() {
        entry.started_at = "2026-01-02T09:00:00Z".to_owned();
    }
    let now = at("2026-01-08T00:00:00Z");
    assert_eq!(ids(&recent_entries_inner_at(&store, 9, now)), vec![5, 4, 3, 2, 1]);
}

#[test]
fn the_number_of_recent_entries_is_kept_in_bounds() {
    assert_eq!(recent_limit(None), 20);
    assert_eq!(recent_limit(Some(-4)), 1);
    assert_eq!(recent_limit(Some(0)), 1);
    assert_eq!(recent_limit(Some(57)), 57);
    assert_eq!(recent_limit(Some(200)), 200);
    assert_eq!(recent_limit(Some(10_000)), 200);
}

#[test]
fn a_report_counts_the_time_in_its_range() {
    let store = sample();
    let now = at("2026-01-07T09:00:30Z");
    let range = ReportRange { start: at("2026-01-06T00:00:00Z"), end: at("2026-01-08T00:00:00Z") };
    let entries = report_entries_inner_at(&store, Some(&range), now).expect("report");
    assert_eq!(ids(&entries), vec![5, 4]);
    assert_eq!(entries[0].duration_seconds, 30);
    assert_eq!(entries[1].duration_seconds, 3600, "only the part after midnight");
    let all = report_entries_inner_at(&store, None, now).expect("report");
    assert_eq!(ids(&all), vec![5, 4, 3, 2, 1]);
    assert_eq!(report_entries_inner(&store, None).expect("report").len(), 5);
}

#[test]
fn consecutive_ranges_share_no_time() {
    let store = sample();
    let now = at("2026-01-07T09:00:30Z");
    let days = ["2026-01-05T00:00:00Z", "2026-01-06T00:00:00Z", "2026-01-07T00:00:00Z"];
    let seconds = |from: &str, to: &str| -> i64 {
        let range = ReportRange { start: at(from), end: at(to) };
        let rows = summary_by_task_inner_at(&store, Some(&range), now).expect("summary");
        rows.iter().map(|row| row.total_seconds).sum()
    };
    assert_eq!(seconds(days[0], days[1]), 3600);
    assert_eq!(seconds(days[1], days[2]), 3600);
    assert_eq!(seconds(days[0], days[2]), 7200);
}

#[test]
fn an_entry_that_only_touches_a_range_is_left_out() {
    let mut store = Store::new();
    let task = add_task(&mut store, "Alpha");
    add_entry(&mut store, task, None, "2026-01-05T23:00:00Z", Some("2026-01-06T00:00:00Z"));
    let range = ReportRange { start: at("2026-01-06T00:00:00Z"), end: at("2026-01-07T00:00:00Z") };
    let now = at("2026-01-07T09:00:30Z");
    assert!(report_entries_inner_at(&store, Some(&range), now).expect("report").is_empty());
}

#[test]
fn times_that_cannot_be_read_stop_a_report_over_a_range() {
    let mut store = sample();
    store.entries[1].ended_at = Some("2026-01-03 12 o'clock".to_owned());
    let now = at("2026-01-07T09:00:30Z");
    let range = ReportRange { start: at("2026-01-01T00:00:00Z"), end: at("2026-01-08T00:00:00Z") };
    assert!(matches!(
        report_entries_inner_at(&store, Some(&range), now),
        Err(TrackerError::Time(TimeFault::Invalid))
    ));
    assert!(matches!(
        summary_by_task_inner(&store, Some(&range)),
        Err(TrackerError::Time(TimeFault::Invalid))
    ));
    let all = report_entries_inner_at(&store, None, now).expect("report");
    assert_eq!(all[3].duration_seconds, 0);
}

#[test]
fn time_by_task_comes_longest_first() {
    let store = sample();
    let rows = summary_by_task_inner_at(&store, None, at("2026-01-07T09:00:00Z")).expect("summary");
    assert_eq!(rows.len(), 2);
    assert_eq!(rows[0].task_name, "Alpha");
    assert_eq!(rows[0].total_seconds, 3600 + 600 + 7200);
    assert_eq!(rows[0].entry_count, 3);
    assert_eq!(rows[0].subtask_id, None);
    assert_eq!(rows[0].subtask_name, None);
    assert_eq!(rows[1].task_name, "Beta");
    assert_eq!(rows[1].total_seconds, 3 * 3600);
    assert_eq!(rows[1].entry_count, 2);
}

#[test]
fn time_by_task_and_subtask_comes_by_name_and_time() {
    let store = sample();
    let rows = summary_by_task_and_subtask_inner_at(&store, None, at("2026-01-07T09:00:00Z"))
        .expect("summary");
    let found: Vec<(&str, Option<&str>, i64, i64)> = rows
        .iter()
        .map(|row| {
            (
                row.task_name.as_str(),
                row.subtask_name.as_deref(),
                row.total_seconds,
                row.entry_count,
            )
        })
        .collect();
    assert_eq!(
        found,
        vec![
            ("Alpha", None, 7200, 1),
            ("Alpha", Some("Review"), 3600, 1),
            ("Alpha", Some("Deploy"), 600, 1),
            ("Beta", Some("Review"), 10800, 2),
        ]
    );
}

#[test]
fn time_by_subtask_counts_the_tasks() {
    let store = sample();
    let rows =
        summary_by_subtask_inner_at(&store, None, at("2026-01-07T09:00:00Z")).expect("summary");
    let found: Vec<(Option<&str>, i64, i64, i64)> = rows
        .iter()
        .map(|row| {
            (row.subtask_name.as_deref(), row.task_count, row.total_seconds, row.entry_count)
        })
        .collect();
    assert_eq!(
        found,
        vec![(Some("Review"), 2, 14400, 3), (None, 1, 7200, 1), (Some("Deploy"), 1, 600, 1)]
    );
}

#[test]
fn rows_with_the_same_time_keep_the_order_of_their_entries() {
    let mut store = Store::new();
    for name in ["One", "Two", "Three"] {
        let task = add_task(&mut store, name);
        add_entry(&mut store, task, None, "2026-01-02T09:00:00Z", Some("2026-01-02T10:00:00Z"));
    }
    let entries =
        report_entries_inner_at(&store, None, at("2026-01-07T09:00:00Z")).expect("report");
    let names: Vec<String> =
        summarize_by_task(&entries).expect("rows").into_iter().map(|row| row.task_name).collect();
    assert_eq!(names, vec!["Three", "Two", "One"]);
    let names: Vec<String> =
        summarize_by_task_and_subtask(&entries).expect("rows").into_iter().map(|row| row.task_name).collect();
    assert_eq!(names, vec!["One", "Three", "Two"]);
    assert_eq!(summarize_by_subtask(&entries).expect("rows").len(), 1);
}

#[test]
fn every_summary_holds_all_the_time() {
    let store = sample();
    let now = at("2026-01-07T09:00:00Z");
    let all: i64 = report_entries_inner_at(&store, None, now)
        .expect("report")
        .iter()
        .map(|entry| entry.duration_seconds)
        .sum();
    assert_eq!(all, 22200);
    let by_task = summary_by_task_inner_at(&store, None, now).expect("summary");
    let by_both = summary_by_task_and_subtask_inner_at(&store, None, now).expect("summary");
    let by_subtask = summary_by_subtask_inner_at(&store, None, now).expect("summary");
    assert_eq!(by_task.iter().map(|row| row.total_seconds).sum::<i64>(), all);
    assert_eq!(by_both.iter().map(|row| row.total_seconds).sum::<i64>(), all);
    assert_eq!(by_subtask.iter().map(|row| row.total_seconds).sum::<i64>(), all);
    assert_eq!(by_subtask.iter().map(|row| row.entry_count).sum::<i64>(), 5);
}

fn shown(id: i64, task_id: i64, subtask_id: Option<i64>, duration_seconds: i64) -> TimeEntryView {
    TimeEntryView {
        id,
        task_id,
        task_name: format!("Task {task_id}"),
        subtask_id,
        subtask_name: subtask_id.map(|id| format!("Subtask {id}")),
        github_kind: None,
        github_reference: None,
        started_at: "2026-01-02T09:00:00Z".to_owned(),
        ended_at: None,
        duration_seconds,
        note: None,
    }
}

#[test]
fn only_a_row_that_cannot_be_held_is_refused() {
    let entries = vec![shown(1, 1, Some(1), i64::MAX), shown(2, 2, Some(2), i64::MAX)];
    let rows = summarize_by_task(&entries).expect("rows");
    assert_eq!(rows.len(), 2);
    assert!(rows.iter().all(|row| row.total_seconds == i64::MAX));
    assert_eq!(summarize_by_task_and_subtask(&entries).expect("rows").len(), 2);
    assert_eq!(summarize_by_subtask(&entries).expect("rows").len(), 2);

    let entries = vec![shown(1, 1, Some(1), i64::MAX), shown(2, 1, Some(2), 1)];
    assert!(matches!(summarize_by_task(&entries), Err(TrackerError::TotalOutOfRange)));
    assert_eq!(summarize_by_task_and_subtask(&entries).expect("rows").len(), 2);
    assert_eq!(summarize_by_subtask(&entries).expect("rows").len(), 2);

    let entries = vec![shown(1, 1, None, i64::MAX), shown(2, 2, None, 1)];
    assert_eq!(summarize_by_task(&entries).expect("rows").len(), 2);
    assert!(matches!(summarize_by_subtask(&entries), Err(TrackerError::TotalOutOfRange)));
}

#[test]
fn a_task_has_the_time_of_its_subtasks() {
    let store = sample();
    let now = at("2026-01-07T09:00:00Z");
    let by_task = summary_by_task_inner_at(&store, None, now).expect("summary");
    let by_both = summary_by_task_and_subtask_inner_at(&store, None, now).expect("summary");
    for row in &by_task {
        let parts = by_both.iter().filter(|part| part.task_id == row.task_id);
        assert_eq!(parts.map(|part| part.total_seconds).sum::<i64>(), row.total_seconds);
    }
}

#[test]
fn changes_are_the_rows_that_differ() {
    let before = sample();
    let mut after = before.duplicate();
    let none = changes(&before, &after);
    assert!(none.tasks.is_empty() && none.subtasks.is_empty() && none.entries.is_empty());
    assert!(none.removed_subtasks.is_empty());

    close_task_conn(&mut after, 2);
    rename_subtask_conn(
        &mut after,
        RenameSubtaskInput { subtask_id: 2, name: "review".to_owned() },
    )
    .expect("rename");
    add_subtask(&mut after, "Testing");
    let changed = changes(&before, &after);
    assert_eq!(changed.tasks.iter().map(|row| row.id).collect::<Vec<_>>(), vec![2]);
    assert_eq!(changed.subtasks.iter().map(|row| row.id).collect::<Vec<_>>(), vec![3]);
    assert_eq!(changed.entries.iter().map(|row| row.id).collect::<Vec<_>>(), vec![3, 5]);
    assert_eq!(changed.removed_subtasks.iter().map(|row| row.id).collect::<Vec<_>>(), vec![2]);
}

#[test]
fn inconsistent_tables_are_noticed() {
    assert!(sample().is_consistent());
    let mut store = sample();
    store.tasks[1].name = "Alpha".to_owned();
    assert!(!store.is_consistent(), "a task name occurs twice");
    let mut store = sample();
    store.tasks[1].id = 1;
    assert!(!store.is_consistent(), "an identifier occurs twice");
    let mut store = sample();
    store.last_entry_id = 4;
    assert!(!store.is_consistent(), "an identifier was never given out");
    let mut store = sample();
    store.entries[0].subtask_id = Some(12);
    assert!(!store.is_consistent(), "a subtask is missing");
    let mut store = sample();
    store.entries.swap(0, 1);
    assert!(!store.is_consistent(), "entries are out of order");
}
