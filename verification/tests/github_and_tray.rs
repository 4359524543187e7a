use tracker::clock::{format_utc, parse_instant, utc_now, Timestamp};
use tracker::github::{
    github_search_query, is_repo_name, issue_to_result, issue_url, parse_github_reference,
    refresh_github_task_states_inner, refresh_github_task_states_inner_at, refresh_url_at,
    search_github_references_inner, set_github_token_inner, should_refresh_github_task_state,
    should_refresh_github_task_state_at, split_repo_query, GithubIssue, GithubSearchInput,
    GithubTokenInput, SearchEvent, SearchStep, TokenUpdate, SEARCH_PAGE_SIZE,
};
use tracker::records::{ActiveTimer, Subtask, Task, TaskWithSubtasks};
use tracker::tray::{
    active_timer_tray_label, format_duration_hms, tray_label, tray_menu_request,
    tray_status_label, tray_task_items, truncate_chars, TrayRequest,
};

fn at(text: &str) -> Timestamp {
    parse_instant(text).expect("an instant")
}

fn task(id: i64, name: &str) -> Task {
    Task {
        id,
        name: name.to_owned(),
        github_kind: None,
        github_reference: None,
        github_state: None,
        github_checked_at: None,
        closed_at: None,
        created_at: "2026-01-01T00:00:00Z".to_owned(),
        updated_at: "2026-01-01T00:00:00Z".to_owned(),
    }
}

fn linked(id: i64, kind: &str, reference: &str, checked_at: Option<&str>) -> Task {
    let mut task = task(id, "Linked");
    task.github_kind = Some(kind.to_owned());
    task.github_reference = Some(reference.to_owned());
    task.github_checked_at = checked_at.map(|text| text.to_owned());
    task
}

fn issue(repository_url: &str, number: i64, is_pull_request: bool) -> GithubIssue {
    GithubIssue {
        html_url: "https://github.com/octo/hello/issues/7".to_owned(),
        repository_url: repository_url.to_owned(),
        number,
        title: "A title".to_owned(),
        state: "open".to_owned(),
        is_pull_request,
    }
}

fn parsed(text: &str) -> Option<(String, String, i64)> {
    parse_github_reference(text)
}

fn reference(owner: &str, repo: &str, number: i64) -> Option<(String, String, i64)> {
    Some((owner.to_owned(), repo.to_owned(), number))
}

#[test]
fn references_are_read_in_both_forms() {
    assert_eq!(parsed("octo/hello#7"), reference("octo", "hello", 7));
    assert_eq!(parsed("octo/hello# 7 "), reference("octo", "hello", 7));
    assert_eq!(parsed(" octo / hello #-7"), reference("octo", "hello", -7));
    assert_eq!(
        parsed("https://github.com/octo/hello/issues/7"),
        reference("octo", "hello", 7)
    );
    assert_eq!(
        parsed("https://github.com/octo/hello/pull/12/files"),
        reference("octo", "hello", 12)
    );
    assert_eq!(parsed("https://github.com/octo/hello/tree/7"), None);
    assert_eq!(parsed("https://github.com/octo/hello"), None);
    assert_eq!(parsed("https://github.com/octo/hello/issues/7#comment"), None);
    assert_eq!(parsed("octo#7"), None);
    assert_eq!(parsed("a/b/c#7"), None);
    assert_eq!(parsed("octo/hello#"), None);
    assert_eq!(parsed("/hello#7"), None);
    assert_eq!(parsed("octo/hello"), None);
}

#[test]
fn repositories_have_an_owner_and_a_name() {
    assert!(is_repo_name("octo/hello"));
    assert!(!is_repo_name("octo"));
    assert!(!is_repo_name("octo/"));
    assert!(!is_repo_name("/hello"));
    assert!(!is_repo_name("a/b/c"));
}

#[test]
fn queries_are_restricted_to_kind_and_repository() {
    assert_eq!(
        split_repo_query("octo/hello fix  it"),
        Some(("octo/hello".to_owned(), "fix  it".to_owned()))
    );
    assert_eq!(split_repo_query("octo/hello   "), None);
    assert_eq!(split_repo_query("octo/hello"), None);
    assert_eq!(split_repo_query("fix octo/hello"), None);
    assert_eq!(
        github_search_query("octo/hello fix", "pull_request"),
        "fix repo:octo/hello type:pr"
    );
    assert_eq!(github_search_query("fix it", "issue"), "fix it type:issue");
    assert_eq!(github_search_query("fix it", "other"), "fix it type:issue");
    assert_eq!(
        issue_url("octo", "hello", 7),
        "https://api.github.com/repos/octo/hello/issues/7"
    );
    assert_eq!(SEARCH_PAGE_SIZE, 8);
}

#[test]
fn what_a_search_finds_leads_back_to_it() {
    let found = issue_to_result(issue("https://api.github.com/repos/octo/hello", 7, false))
        .expect("a result");
    assert_eq!(found.reference, "octo/hello#7");
    assert_eq!(found.repository, "octo/hello");
    assert_eq!(found.url, "https://github.com/octo/hello/issues/7");
    assert_eq!(found.title, "A title");
    assert_eq!(found.state, "open");
    assert_eq!(parsed(&found.reference), reference("octo", "hello", 7));
    assert!(issue_to_result(issue("https://example.com/octo/hello", 7, false)).is_none());
}

fn ask(query: &str, kind: Option<&str>) -> SearchStep {
    search_github_references_inner(SearchEvent::Asked(GithubSearchInput {
        query: query.to_owned(),
        github_kind: kind.map(|text| text.to_owned()),
    }))
}

#[test]
fn a_search_takes_its_steps() {
    assert!(matches!(ask("  ab ", None), SearchStep::Done(found) if found.is_empty()));
    match ask(" octo/hello#7 ", Some("pull_request")) {
        SearchStep::FetchIssue { url } => {
            assert_eq!(url, "https://api.github.com/repos/octo/hello/issues/7")
        }
        _ => panic!("a reference is fetched"),
    }
    match ask("é1", Some(" pull_request ")) {
        SearchStep::ListIssues { query, pull_requests } => {
            assert_eq!(query, "é1 type:pr");
            assert!(pull_requests);
        }
        _ => panic!("a text of three bytes is searched for"),
    }
    match ask("abc", Some("  ")) {
        SearchStep::ListIssues { query, pull_requests } => {
            assert_eq!(query, "abc type:issue");
            assert!(!pull_requests);
        }
        _ => panic!("a text is searched for"),
    }
}

#[test]
fn a_search_keeps_the_kind_that_was_asked_for() {
    let repo = "https://api.github.com/repos/octo/hello";
    let listed = |pull_requests: bool| -> Vec<i64> {
        let issues = vec![
            issue(repo, 1, false),
            issue(repo, 2, true),
            issue("https://example.com/", 3, false),
            issue(repo, 4, false),
        ];
        let event = SearchEvent::IssuesListed { issues, pull_requests };
        match search_github_references_inner(event) {
            SearchStep::Done(found) => found.iter().map(|one| one.number).collect(),
            _ => panic!("a list is the end"),
        }
    };
    assert_eq!(listed(false), vec![1, 4]);
    assert_eq!(listed(true), vec![2]);
    match search_github_references_inner(SearchEvent::IssueFound(issue(repo, 9, true))) {
        SearchStep::Done(found) => assert_eq!(found[0].number, 9),
        _ => panic!("an issue is the end"),
    }
}

#[test]
fn a_blank_token_is_taken_away() {
    let update = |token: Option<&str>| {
        set_github_token_inner(GithubTokenInput { token: token.map(|text| text.to_owned()) })
    };
    assert!(matches!(update(Some(" abc ")), TokenUpdate::Keep(token) if token == "abc"));
    assert!(matches!(update(Some("  ")), TokenUpdate::Remove));
    assert!(matches!(update(None), TokenUpdate::Remove));
}

#[test]
fn states_are_asked_for_after_half_an_hour() {
    let now = at("2026-01-02T12:00:00Z");
    let due = |task: Task| should_refresh_github_task_state_at(&task, now);
    assert!(due(linked(1, "issue", "octo/hello#7", None)));
    assert!(due(linked(1, "pull_request", "octo/hello#7", Some("2026-01-02T11:00:00Z"))));
    assert!(due(linked(1, "issue", "octo/hello#7", Some("long ago"))));
    assert!(!due(linked(1, "issue", "octo/hello#7", Some("2026-01-02T11:45:00Z"))));
    assert!(!due(linked(1, "other", "octo/hello#7", None)));
    assert!(!due(task(1, "Unlinked")));
    let just_now = format_utc(utc_now());
    assert!(!should_refresh_github_task_state(&linked(
        1,
        "issue",
        "octo/hello#7",
        Some(&just_now)
    )));
    assert_eq!(
        refresh_url_at(&linked(1, "issue", "octo/hello#7", None), now).as_deref(),
        Some("https://api.github.com/repos/octo/hello/issues/7")
    );
    assert_eq!(refresh_url_at(&linked(1, "issue", "octo", None), now), None);
}

#[test]
fn states_are_asked_for_in_the_order_of_the_tasks() {
    let now = at("2026-01-02T12:00:00Z");
    let tasks: Vec<TaskWithSubtasks> = vec![
        linked(4, "issue", "octo/hello#7", None),
        task(3, "Unlinked"),
        linked(2, "pull_request", "https://github.com/octo/hello/pull/8", None),
        linked(1, "issue", "nonsense", None),
    ]
    .into_iter()
    .map(|task| TaskWithSubtasks { task, subtasks: Vec::new() })
    .collect();
    let token = Some("abc".to_owned());
    let requests = refresh_github_task_states_inner_at(&token, &tasks, now);
    let found: Vec<(i64, &str)> =
        requests.iter().map(|request| (request.task_id, request.url.as_str())).collect();
    assert_eq!(
        found,
        vec![
            (4, "https://api.github.com/repos/octo/hello/issues/7"),
            (2, "https://api.github.com/repos/octo/hello/issues/8"),
        ]
    );
    assert_eq!(refresh_github_task_states_inner(&token, &tasks).len(), 2);
    assert!(refresh_github_task_states_inner(&Some("  ".to_owned()), &tasks).is_empty());
    assert!(refresh_github_task_states_inner(&None, &tasks).is_empty());
}

fn timer(task_name: &str, subtask: Option<&str>, elapsed_seconds: i64) -> ActiveTimer {
    ActiveTimer {
        entry_id: 1,
        task: task(1, task_name),
        subtask: subtask.map(|name| Subtask {
            id: 1,
            name: name.to_owned(),
            archived_at: None,
            created_at: "2026-01-01T00:00:00Z".to_owned(),
        }),
        started_at: "2026-01-02T09:00:00Z".to_owned(),
        elapsed_seconds,
        note: None,
    }
}

#[test]
fn durations_are_shown_in_hours_minutes_and_seconds() {
    assert_eq!(format_duration_hms(0), "00:00:00");
    assert_eq!(format_duration_hms(3661), "01:01:01");
    assert_eq!(format_duration_hms(360_000 + 59), "100:00:59");
    assert_eq!(format_duration_hms(-5), "00:00:00");
    assert_eq!(format_duration_hms(i64::MAX), "2562047788015215:30:07");
}

#[test]
fn labels_are_cut_short() {
    assert_eq!(truncate_chars("abcdef", 6), "abcdef");
    assert_eq!(truncate_chars("abcdefg", 6), "abcde...");
    assert_eq!(truncate_chars("äöüäöüä", 6), "äöüäö...");
    assert_eq!(truncate_chars("ab", 1), "...");
    assert_eq!(truncate_chars("", 0), "");
    let long = "x".repeat(43);
    assert_eq!(tray_label(&long), format!("{}...", "x".repeat(41)));
    assert_eq!(tray_label(&long[1..]), "x".repeat(42));
}

#[test]
fn the_tray_shows_the_timer() {
    assert_eq!(active_timer_tray_label(&timer("Task", None, 65)), "Task 00:01:05");
    assert_eq!(
        active_timer_tray_label(&timer("Task", Some("Review"), 65)),
        "Task / Review 00:01:05"
    );
    let long = timer(&"y".repeat(30), Some("Review"), 1);
    assert_eq!(
        active_timer_tray_label(&long),
        format!("{} / ... 00:00:01", "y".repeat(30))
    );
    assert_eq!(tray_status_label(true, Some(&timer("Task", None, 65))), "Task 00:01:05");
    assert_eq!(tray_status_label(true, None), "stopped");
    assert_eq!(tray_status_label(false, None), "database error");
}

#[test]
fn the_menu_starts_the_first_tasks() {
    let tasks: Vec<TaskWithSubtasks> = (1..=10)
        .map(|id| TaskWithSubtasks { task: task(id, &format!("Task {id}")), subtasks: Vec::new() })
        .collect();
    let items = tray_task_items(&tasks);
    assert_eq!(items.len(), 8);
    assert_eq!(items[0].id, "start-task:1");
    assert_eq!(items[7].label, "Start Task 8");
    assert_eq!(tray_menu_request(&items[2].id), TrayRequest::StartTask(3));
    assert_eq!(tray_menu_request("show"), TrayRequest::Show);
    assert_eq!(tray_menu_request("stop"), TrayRequest::Stop);
    assert_eq!(tray_menu_request("quit"), TrayRequest::Quit);
    assert_eq!(tray_menu_request("start-task:x"), TrayRequest::Nothing);
    assert_eq!(tray_menu_request("other"), TrayRequest::Nothing);
}
