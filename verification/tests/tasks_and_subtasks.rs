use tracker::clock::{format_utc, now_string, parse_instant, utc_now, Timestamp};
use tracker::entries::{entry_view_by_id, entry_view_by_id_at};
use tracker::error::{DatabaseFault, TrackerError};
use tracker::records::{
    CloseTaskInput, CreateSubtaskInput, RenameSubtaskInput, SetSubtaskArchivedInput, Subtask,
    SubtaskView, Task, TaskInput, TimeEntry, UpdateEntrySubtaskInput,
};
use tracker::store::{subtask_by_id, task_by_id, upsert_subtask, upsert_task, Store};
use tracker::subtasks::{
    all_subtasks, create_subtask_conn, list_subtasks_inner, list_subtasks_inner_at,
    rename_subtask_conn, rename_subtask_conn_at, set_subtask_archived_conn,
    set_subtask_archived_conn_at, update_time_entry_subtask_inner,
    update_time_entry_subtask_inner_at,
};
use tracker::summaries::{
    summary_by_subtask_inner, summary_by_task_and_subtask_inner, summary_by_task_inner_at,
};
use tracker::tasks::{create_task_inner, list_tasks_inner, subtasks_for_task};
use tracker::timers::{close_task_conn, record_github_state, record_github_state_at};

fn at(text: &str) -> Timestamp {
    parse_instant(text).expect("an instant")
}

fn task_input(name: &str) -> TaskInput {
    TaskInput {
        name: name.to_owned(),
        github_kind: None,
        github_reference: None,
        github_state: None,
    }
}

fn create_test_task(store: &mut Store, name: &str) -> Task {
    upsert_task(store, &task_input(name), &now_string()).expect("upsert task")
}

fn upsert_test_subtask(store: &mut Store, name: &str) -> Subtask {
    upsert_subtask(store, name, &now_string()).expect("upsert subtask")
}

fn insert_entry(
    store: &mut Store,
    task_id: i64,
    subtask_id: Option<i64>,
    started_at: &str,
    ended_at: Option<&str>,
) -> i64 {
    let id = store.last_entry_id + 1;
    store.entries.push(TimeEntry {
        id,
        task_id,
        subtask_id,
        started_at: started_at.to_owned(),
        ended_at: ended_at.map(|text| text.to_owned()),
        note: None,
    });
    store.last_entry_id = id;
    id
}

/// Records a finished entry of `minutes` against a task and optional subtask.
fn insert_test_entry(
    store: &mut Store,
    task_id: i64,
    subtask_id: Option<i64>,
    minutes: i64,
) -> i64 {
    let now = utc_now();
    let started_at = format_utc(Timestamp { secs: now.secs - 60 * minutes, nanos: now.nanos });
    let ended_at = format_utc(utc_now());
    insert_entry(store, task_id, subtask_id, &started_at, Some(&ended_at))
}

fn subtask_view(views: &[SubtaskView], name: &str) -> SubtaskView {
    views
        .iter()
        .find(|view| view.name == name)
        .cloned()
        .unwrap_or_else(|| panic!("expected a subtask named {name}"))
}

#[test]
fn closing_task_removes_it_from_open_task_list() {
    let mut store = Store::new();
    let task = create_test_task(&mut store, "Old task");

    assert_eq!(list_tasks_inner(&store).len(), 1);

    let input = CloseTaskInput { task_id: task.id };
    close_task_conn(&mut store, input.task_id);

    assert!(list_tasks_inner(&store).is_empty());
    let closed_at = task_by_id(&store, task.id).expect("read closed_at").closed_at;
    assert!(closed_at.is_some());
}

#[test]
fn closing_task_stops_active_timer_for_that_task() {
    let mut store = Store::new();
    let task = create_test_task(&mut store, "Running task");
    insert_entry(&mut store, task.id, None, &now_string(), None);

    close_task_conn(&mut store, task.id);

    let ended_at = store.entries[0].ended_at.clone();
    assert!(ended_at.is_some());
}

#[test]
fn subtask_names_are_shared_between_tasks() {
    let mut store = Store::new();
    create_test_task(&mut store, "First task");
    create_test_task(&mut store, "Second task");

    let first = upsert_test_subtask(&mut store, "Review");
    let second = upsert_test_subtask(&mut store, "Review");

    assert_eq!(first.id, second.id, "the same name should resolve to one shared subtask");
    assert_eq!(all_subtasks(&store).len(), 1);
}

#[test]
fn subtask_names_ignore_case_and_surrounding_whitespace() {
    let mut store = Store::new();

    let canonical = upsert_test_subtask(&mut store, "Code review");

    for variant in ["code review", "  Code   review  ", "CODE REVIEW"] {
        let subtask = upsert_test_subtask(&mut store, variant);
        assert_eq!(subtask.id, canonical.id, "{variant} should merge");
    }

    let subtasks = all_subtasks(&store);
    assert_eq!(subtasks.len(), 1);
    assert_eq!(subtasks[0].name, "Code review", "the first spelling should be kept");
}

#[test]
fn blank_subtask_names_are_rejected() {
    let mut store = Store::new();

    let error = upsert_subtask(&mut store, "   ", &now_string());

    assert!(matches!(error, Err(TrackerError::MissingSubtaskName)));
}

#[test]
fn naming_an_archived_subtask_brings_it_back() {
    let mut store = Store::new();
    let subtask = upsert_test_subtask(&mut store, "Deploy");
    set_subtask_archived_conn(
        &mut store,
        SetSubtaskArchivedInput { subtask_id: subtask.id, archived: true },
    )
    .expect("archive subtask");
    assert!(subtask_by_id(&store, subtask.id).expect("subtask").archived_at.is_some());

    let revived = upsert_test_subtask(&mut store, "deploy");

    assert_eq!(revived.id, subtask.id);
    assert!(revived.archived_at.is_none());
}

#[test]
fn archiving_a_subtask_keeps_its_recorded_time() {
    let mut store = Store::new();
    let task = create_test_task(&mut store, "First task");
    let subtask = upsert_test_subtask(&mut store, "Deploy");
    insert_test_entry(&mut store, task.id, Some(subtask.id), 30);

    let views = set_subtask_archived_conn(
        &mut store,
        SetSubtaskArchivedInput { subtask_id: subtask.id, archived: true },
    )
    .expect("archive subtask");

    let view = subtask_view(&views, "Deploy");
    assert!(view.archived_at.is_some());
    assert_eq!(view.entry_count, 1);
    assert!(view.total_seconds >= 1800);
}

#[test]
fn renaming_a_subtask_keeps_its_entries() {
    let mut store = Store::new();
    let task = create_test_task(&mut store, "First task");
    let subtask = upsert_test_subtask(&mut store, "Reviewing");
    let entry_id = insert_test_entry(&mut store, task.id, Some(subtask.id), 15);

    let views = rename_subtask_conn(
        &mut store,
        RenameSubtaskInput { subtask_id: subtask.id, name: "Code review".to_owned() },
    )
    .expect("rename subtask");

    assert_eq!(views.len(), 1);
    assert_eq!(views[0].name, "Code review");
    assert_eq!(
        entry_view_by_id(&store, entry_id).expect("read entry").subtask_name.as_deref(),
        Some("Code review")
    );
}

#[test]
fn renaming_onto_an_existing_name_merges_the_two_subtasks() {
    let mut store = Store::new();
    let task = create_test_task(&mut store, "First task");
    let review = upsert_test_subtask(&mut store, "Review");
    let reviewing = upsert_test_subtask(&mut store, "Reviewing");
    let review_entry = insert_test_entry(&mut store, task.id, Some(review.id), 20);
    let reviewing_entry = insert_test_entry(&mut store, task.id, Some(reviewing.id), 40);

    let views = rename_subtask_conn(
        &mut store,
        RenameSubtaskInput { subtask_id: reviewing.id, name: "review".to_owned() },
    )
    .expect("rename subtask");

    assert_eq!(views.len(), 1, "the two subtasks should have merged");
    let view = subtask_view(&views, "Review");
    assert_eq!(view.id, review.id);
    assert_eq!(view.entry_count, 2, "both entries should have moved across");

    for entry_id in [review_entry, reviewing_entry] {
        assert_eq!(
            entry_view_by_id(&store, entry_id).expect("read entry").subtask_id,
            Some(review.id)
        );
    }
}

#[test]
fn creating_an_existing_subtask_does_not_duplicate_it() {
    let mut store = Store::new();

    create_subtask_conn(&mut store, CreateSubtaskInput { name: "Review".to_owned() })
        .expect("create subtask");
    let views = create_subtask_conn(&mut store, CreateSubtaskInput { name: " review ".to_owned() })
        .expect("create subtask again");

    assert_eq!(views.len(), 1);
}

#[test]
fn subtask_report_totals_time_across_every_task() {
    let mut store = Store::new();
    let first = create_test_task(&mut store, "First task");
    let second = create_test_task(&mut store, "Second task");
    let review = upsert_test_subtask(&mut store, "Review");
    let deploy = upsert_test_subtask(&mut store, "Deploy");
    insert_test_entry(&mut store, first.id, Some(review.id), 30);
    insert_test_entry(&mut store, second.id, Some(review.id), 60);
    insert_test_entry(&mut store, first.id, Some(deploy.id), 10);
    insert_test_entry(&mut store, first.id, None, 5);

    let rows = summary_by_subtask_inner(&store, None).expect("subtask summary");

    assert_eq!(rows.len(), 3, "two subtasks plus the unlabelled entry");
    let review_row = &rows[0];
    assert_eq!(review_row.subtask_name.as_deref(), Some("Review"));
    assert_eq!(review_row.entry_count, 2);
    assert_eq!(review_row.task_count, 2, "the subtask spans both tasks");
    assert!(review_row.total_seconds >= 5400);

    let unlabelled = rows
        .iter()
        .find(|row| row.subtask_id.is_none())
        .expect("a row for entries without a subtask");
    assert_eq!(unlabelled.entry_count, 1);
}

#[test]
fn task_subtask_report_still_separates_the_same_subtask_per_task() {
    let mut store = Store::new();
    let first = create_test_task(&mut store, "First task");
    let second = create_test_task(&mut store, "Second task");
    let review = upsert_test_subtask(&mut store, "Review");
    insert_test_entry(&mut store, first.id, Some(review.id), 30);
    insert_test_entry(&mut store, second.id, Some(review.id), 60);

    let rows = summary_by_task_and_subtask_inner(&store, None).expect("task summary");

    assert_eq!(rows.len(), 2);
    assert!(rows.iter().all(|row| row.subtask_name.as_deref() == Some("Review")));
}

#[test]
fn task_subtask_suggestions_list_recently_used_subtasks_first() {
    let mut store = Store::new();
    let task = create_test_task(&mut store, "First task");
    let other = create_test_task(&mut store, "Second task");
    let review = upsert_test_subtask(&mut store, "Review");
    let deploy = upsert_test_subtask(&mut store, "Deploy");
    let unused = upsert_test_subtask(&mut store, "Unused here");
    insert_test_entry(&mut store, task.id, Some(review.id), 90);
    insert_test_entry(&mut store, task.id, Some(deploy.id), 10);
    insert_test_entry(&mut store, other.id, Some(unused.id), 10);

    let subtasks = subtasks_for_task(&store, task.id);

    assert_eq!(
        subtasks.iter().map(|subtask| subtask.name.as_str()).collect::<Vec<_>>(),
        vec!["Deploy", "Review"],
        "most recently used first, and only the subtasks of the task"
    );
}

#[test]
fn describing_a_task_again_keeps_its_row() {
    let mut store = Store::new();
    let first = upsert_task(
        &mut store,
        &TaskInput {
            name: "  Plan release ".to_owned(),
            github_kind: Some(" issue ".to_owned()),
            github_reference: Some("octo/hello#7".to_owned()),
            github_state: Some("open".to_owned()),
        },
        "2026-01-02T09:00:00Z",
    )
    .expect("task");
    assert_eq!(first.id, 1);
    assert_eq!(first.name, "Plan release");
    assert_eq!(first.github_kind.as_deref(), Some("issue"));
    assert_eq!(first.github_checked_at.as_deref(), Some("2026-01-02T09:00:00Z"));
    close_task_conn(&mut store, first.id);

    let mut input = task_input("Plan release");
    input.github_kind = Some("   ".to_owned());
    let again = upsert_task(&mut store, &input, "2026-01-03T09:00:00Z").expect("task");
    assert_eq!(again.id, 1);
    assert_eq!(store.tasks.len(), 1);
    assert_eq!(again.github_kind, None);
    assert_eq!(again.github_reference, None);
    assert_eq!(again.github_checked_at, None);
    assert_eq!(again.closed_at, None);
    assert_eq!(again.created_at, "2026-01-02T09:00:00Z");
    assert_eq!(again.updated_at, "2026-01-03T09:00:00Z");
    assert_eq!(list_tasks_inner(&store).len(), 1);
}

#[test]
fn task_names_differ_by_letter_case() {
    let mut store = Store::new();
    assert_eq!(create_test_task(&mut store, "Plan").id, 1);
    assert_eq!(create_test_task(&mut store, "plan").id, 2);
}

#[test]
fn blank_task_names_are_refused_and_change_nothing() {
    let mut store = Store::new();
    let error = create_task_inner(&mut store, task_input(" \t\n"));
    assert!(matches!(error, Err(TrackerError::MissingTaskName)));
    assert!(store.tasks.is_empty());
    assert_eq!(store.last_task_id, 0);
}

#[test]
fn rows_beyond_the_last_identifier_are_refused() {
    let mut store = Store::new();
    store.last_task_id = i64::MAX;
    store.last_subtask_id = i64::MAX;
    assert!(matches!(
        create_task_inner(&mut store, task_input("One more")),
        Err(TrackerError::Database(DatabaseFault::Full))
    ));
    assert!(matches!(
        upsert_subtask(&mut store, "One more", "2026-01-02T09:00:00Z"),
        Err(TrackerError::Database(DatabaseFault::Full))
    ));
    assert!(store.tasks.is_empty());
    assert!(store.subtasks.is_empty());
}

#[test]
fn rows_that_are_not_there_are_reported() {
    let store = Store::new();
    assert!(matches!(
        task_by_id(&store, 1),
        Err(TrackerError::Database(DatabaseFault::NoRows))
    ));
    assert!(matches!(
        subtask_by_id(&store, 1),
        Err(TrackerError::Database(DatabaseFault::NoRows))
    ));
    assert!(matches!(
        entry_view_by_id(&store, 1),
        Err(TrackerError::Database(DatabaseFault::NoRows))
    ));
}

#[test]
fn listed_tasks_come_by_their_last_update_and_then_by_name() {
    let mut store = Store::new();
    for (name, now) in [
        ("b", "2026-01-02T09:00:00Z"),
        ("a", "2026-01-02T09:00:00Z"),
        ("c", "2026-01-03T09:00:00Z"),
        ("B", "2026-01-02T09:00:00Z"),
    ] {
        upsert_task(&mut store, &task_input(name), now).expect("task");
    }
    let names: Vec<String> =
        list_tasks_inner(&store).into_iter().map(|item| item.task.name).collect();
    assert_eq!(names, vec!["c", "B", "a", "b"]);
}

#[test]
fn a_created_task_comes_with_its_history() {
    let mut store = Store::new();
    let task = create_test_task(&mut store, "First task");
    let review = upsert_test_subtask(&mut store, "Review");
    insert_test_entry(&mut store, task.id, Some(review.id), 5);
    let created = create_task_inner(&mut store, task_input("First task")).expect("task");
    assert_eq!(created.task.id, task.id);
    assert_eq!(created.subtasks.len(), 1);
    assert_eq!(created.subtasks[0].id, review.id);
}

#[test]
fn a_subtask_used_twice_is_suggested_once_at_its_last_use() {
    let mut store = Store::new();
    let task = create_test_task(&mut store, "Task");
    let a = upsert_test_subtask(&mut store, "A");
    let b = upsert_test_subtask(&mut store, "B");
    insert_entry(&mut store, task.id, Some(a.id), "2026-01-02T09:00:00Z", None);
    insert_entry(&mut store, task.id, Some(b.id), "2026-01-02T10:00:00Z", None);
    insert_entry(&mut store, task.id, None, "2026-01-02T11:00:00Z", None);
    insert_entry(&mut store, task.id, Some(a.id), "2026-01-02T12:00:00Z", None);
    let names: Vec<String> =
        subtasks_for_task(&store, task.id).into_iter().map(|subtask| subtask.name).collect();
    assert_eq!(names, vec!["A", "B"]);
}

#[test]
fn subtasks_are_listed_by_name_with_their_use() {
    let mut store = Store::new();
    let task = create_test_task(&mut store, "Task");
    let review = upsert_test_subtask(&mut store, "Review");
    let deploy = upsert_test_subtask(&mut store, "Deploy");
    insert_entry(
        &mut store,
        task.id,
        Some(review.id),
        "2026-01-02T09:00:00Z",
        Some("2026-01-02T09:30:00Z"),
    );
    insert_entry(
        &mut store,
        task.id,
        Some(review.id),
        "2026-01-03T09:00:00Z",
        Some("2026-01-03T09:00:05Z"),
    );
    let views = list_subtasks_inner_at(&store, at("2026-01-04T00:00:00Z")).expect("list");
    assert_eq!(views.len(), 2);
    assert_eq!(views[0].id, deploy.id);
    assert_eq!(views[0].entry_count, 0);
    assert_eq!(views[0].total_seconds, 0);
    assert_eq!(views[1].id, review.id);
    assert_eq!(views[1].entry_count, 2);
    assert_eq!(views[1].total_seconds, 1805);
    assert_eq!(list_subtasks_inner(&store).expect("list").len(), 2);
}

#[test]
fn every_entry_of_a_subtask_is_counted() {
    let mut store = Store::new();
    let task = create_test_task(&mut store, "Task");
    let review = upsert_test_subtask(&mut store, "Review");
    for _ in 0..10_050 {
        insert_entry(
            &mut store,
            task.id,
            Some(review.id),
            "2026-01-02T09:00:00Z",
            Some("2026-01-02T09:00:02Z"),
        );
    }
    let views = list_subtasks_inner_at(&store, at("2026-01-04T00:00:00Z")).expect("list");
    assert_eq!(views[0].entry_count, 10_050);
    assert_eq!(views[0].total_seconds, 20_100);
}

#[test]
fn merging_moves_time_and_leaves_reports_by_task_alone() {
    let mut store = Store::new();
    let now = at("2026-01-04T00:00:00Z");
    let task = create_test_task(&mut store, "Task");
    let review = upsert_test_subtask(&mut store, "Review");
    let reviewing = upsert_test_subtask(&mut store, "Reviewing");
    insert_entry(
        &mut store,
        task.id,
        Some(review.id),
        "2026-01-02T09:00:00Z",
        Some("2026-01-02T09:20:00Z"),
    );
    insert_entry(
        &mut store,
        task.id,
        Some(reviewing.id),
        "2026-01-03T09:00:00Z",
        Some("2026-01-03T09:40:00Z"),
    );
    let before = summary_by_task_inner_at(&store, None, now).expect("summary");
    let views = rename_subtask_conn_at(
        &mut store,
        RenameSubtaskInput { subtask_id: reviewing.id, name: "REVIEW".to_owned() },
        now,
    )
    .expect("rename");
    let after = summary_by_task_inner_at(&store, None, now).expect("summary");
    assert_eq!(views.len(), 1);
    assert_eq!(views[0].name, "Review");
    assert_eq!(views[0].total_seconds, 3600);
    assert_eq!(before[0].total_seconds, 3600);
    assert_eq!(after[0].total_seconds, 3600);
    assert_eq!(after[0].entry_count, 2);
    assert!(store.is_consistent());
}

#[test]
fn renaming_to_another_spelling_of_its_own_name_renames() {
    let mut store = Store::new();
    let review = upsert_test_subtask(&mut store, "review");
    let views = rename_subtask_conn(
        &mut store,
        RenameSubtaskInput { subtask_id: review.id, name: " Code   Review ".to_owned() },
    )
    .expect("rename");
    assert_eq!(views[0].name, "Code Review");
    assert_eq!(store.subtasks[0].name_key, "code review");
    let views = rename_subtask_conn(
        &mut store,
        RenameSubtaskInput { subtask_id: review.id, name: "CODE REVIEW".to_owned() },
    )
    .expect("rename");
    assert_eq!(views[0].name, "CODE REVIEW");
    assert_eq!(store.subtasks.len(), 1);
}

#[test]
fn renaming_what_is_not_there_changes_nothing() {
    let mut store = Store::new();
    upsert_test_subtask(&mut store, "Review");
    let views = rename_subtask_conn(
        &mut store,
        RenameSubtaskInput { subtask_id: 99, name: "Deploy".to_owned() },
    )
    .expect("rename");
    assert_eq!(views.len(), 1);
    assert_eq!(views[0].name, "Review");
    let error = rename_subtask_conn(
        &mut store,
        RenameSubtaskInput { subtask_id: 1, name: "  ".to_owned() },
    );
    assert!(matches!(error, Err(TrackerError::MissingSubtaskName)));
    assert_eq!(store.subtasks[0].name, "Review");
}

#[test]
fn restoring_a_subtask_undoes_archiving_it() {
    let mut store = Store::new();
    let now = at("2026-01-04T00:00:00Z");
    let subtask = upsert_test_subtask(&mut store, "Deploy");
    let views = set_subtask_archived_conn_at(
        &mut store,
        SetSubtaskArchivedInput { subtask_id: subtask.id, archived: true },
        now,
    )
    .expect("archive subtask");
    assert_eq!(views[0].archived_at.as_deref(), Some("2026-01-04T00:00:00Z"));
    let views = set_subtask_archived_conn_at(
        &mut store,
        SetSubtaskArchivedInput { subtask_id: subtask.id, archived: false },
        now,
    )
    .expect("restore subtask");
    assert_eq!(views[0].archived_at, None);
}

#[test]
fn an_entry_gets_and_loses_a_subtask() {
    let mut store = Store::new();
    let now = at("2026-01-04T00:00:00Z");
    let task = create_test_task(&mut store, "Task");
    let id = insert_entry(
        &mut store,
        task.id,
        None,
        "2026-01-02T09:00:00Z",
        Some("2026-01-02T09:20:00Z"),
    );
    let view = update_time_entry_subtask_inner_at(
        &mut store,
        UpdateEntrySubtaskInput { entry_id: id, subtask_name: Some(" Code  review ".to_owned()) },
        now,
    )
    .expect("update");
    assert_eq!(view.subtask_name.as_deref(), Some("Code review"));
    assert_eq!(view.subtask_id, Some(1));
    assert_eq!(view.duration_seconds, 1200);
    assert_eq!(store.subtasks[0].created_at, "2026-01-04T00:00:00Z");
    let view = update_time_entry_subtask_inner(
        &mut store,
        UpdateEntrySubtaskInput { entry_id: id, subtask_name: Some("  ".to_owned()) },
    )
    .expect("update");
    assert_eq!(view.subtask_id, None);
    assert_eq!(store.subtasks.len(), 1);
}

#[test]
fn no_subtask_is_created_for_an_entry_that_is_gone() {
    let mut store = Store::new();
    let error = update_time_entry_subtask_inner(
        &mut store,
        UpdateEntrySubtaskInput { entry_id: 5, subtask_name: Some("Review".to_owned()) },
    );
    assert!(matches!(error, Err(TrackerError::Database(DatabaseFault::NoRows))));
    assert!(store.subtasks.is_empty());
}

#[test]
fn the_state_on_github_is_noted() {
    let mut store = Store::new();
    create_test_task(&mut store, "First");
    let second = create_test_task(&mut store, "Second");
    record_github_state_at(&mut store, second.id, "closed", at("2026-01-04T00:00:00Z"));
    assert_eq!(store.tasks[0].github_state, None);
    assert_eq!(store.tasks[1].github_state.as_deref(), Some("closed"));
    assert_eq!(store.tasks[1].github_checked_at.as_deref(), Some("2026-01-04T00:00:00Z"));
    assert_eq!(store.tasks[1].updated_at, second.updated_at);
    record_github_state(&mut store, second.id, "open");
    assert_eq!(store.tasks[1].github_state.as_deref(), Some("open"));
}

#[test]
fn an_entry_is_shown_with_the_names_it_refers_to() {
    let mut store = Store::new();
    let task = upsert_task(
        &mut store,
        &TaskInput {
            name: "Task".to_owned(),
            github_kind: Some("issue".to_owned()),
            github_reference: Some("octo/hello#7".to_owned()),
            github_state: None,
        },
        "2026-01-01T00:00:00Z",
    )
    .expect("task");
    let id = insert_entry(&mut store, task.id, None, "not a time", Some("2026-01-02T09:20:00Z"));
    let view = entry_view_by_id_at(&store, id, at("2026-01-04T00:00:00Z")).expect("entry");
    assert_eq!(view.task_name, "Task");
    assert_eq!(view.github_kind.as_deref(), Some("issue"));
    assert_eq!(view.github_reference.as_deref(), Some("octo/hello#7"));
    assert_eq!(view.duration_seconds, 0, "times that cannot be read count as none");
}
