//! Issues and pull requests on GitHub: how they are named, searched and asked for.

use vstd::prelude::*;
use vstd::string::StringExecFns;
use vstd::utf8::encode_utf8;
use crate::clock::{
    is_stale, older_than_half_an_hour, parse_instant, reading, utc_now, utc_text, Timestamp,
};
use crate::lists::{lemma_filter_push, models, models_of_push};
use crate::names::{normalize_optional, optional_name};
use crate::number::{
    i64_value, numbers_are_written_in_digits, parse_i64, signed_decimal, signed_text,
    written_numbers_read_back,
};
use crate::records::{Task, TaskModel, TaskWithSubtasks, TaskWithSubtasksModel};
use crate::text::{
    a_prefix_and_the_rest_are_the_text, a_text_is_parted_at_its_first_separator, after_prefix,
    first_part, is_space, nothing_to_trim, one_part, opt_text, same_text, split, split_at_space,
    split_once, split_text, split_text_at_space, split_text_once, strip_prefix, texts, trim,
    trimmed, until, until_is_the_first_place, until_the_joint,
};
use crate::written_time::{
    can_be_written, instants_are_written_by_the_second, whole_second, written_instants_read_back,
};

verus! {

/// How many results a search asks for.
pub const SEARCH_PAGE_SIZE: u32 = 8;

// ---------------------------------------------------------------------------
// References
// ---------------------------------------------------------------------------

/// Whether a text names a repository: an owner and a name, with one slash
/// between them.
pub open spec fn names_repo(s: Seq<char>) -> bool {
    let parts = split(s, '/');
    parts.len() == 2 && parts[0].len() > 0 && parts[1].len() > 0
}

/// Whether a text names a repository.
pub fn is_repo_name(value: &str) -> (result: bool)
    ensures
        result == names_repo(value@),
{
    let parts = split_text(value, '/');
    assert(parts@.len() == split(value@, '/').len());
    if parts.len() != 2 {
        return false;
    }
    assert(texts(parts@)[0] == parts@[0]@);
    assert(texts(parts@)[1] == parts@[1]@);
    !parts[0].as_str().is_empty() && !parts[1].as_str().is_empty()
}

/// An issue or a pull request by its address, after the host: owner, repository,
/// `issues` or `pull`, and the number. Nothing where the third part is another.
/// An address that breaks off, or whose number is none, is an error.
pub open spec fn address_reference(rest: Seq<char>) -> Result<
    Option<(Seq<char>, Seq<char>, i64)>,
    (),
> {
    let parts = split(rest, '/');
    if parts.len() < 4 {
        Err(())
    } else {
        match i64_value(parts[3]) {
            None => Err(()),
            Some(number) => if parts[2] == "issues"@ || parts[2] == "pull"@ {
                Ok(Some((parts[0], parts[1], number)))
            } else {
                Ok(None)
            },
        }
    }
}

/// An issue or a pull request in short: `owner/repository#number`.
pub open spec fn short_reference(s: Seq<char>) -> Option<(Seq<char>, Seq<char>, i64)> {
    match split_once(s, '#') {
        None => None,
        Some((repo, number)) => {
            let parts = split(repo, '/');
            if !names_repo(repo) {
                None
            } else {
                match i64_value(trimmed(number)) {
                    None => None,
                    Some(number) => Some((trimmed(parts[0]), trimmed(parts[1]), number)),
                }
            }
        },
    }
}

/// The owner, the repository and the number that a reference names.
pub open spec fn github_reference(s: Seq<char>) -> Option<(Seq<char>, Seq<char>, i64)> {
    match after_prefix(s, "https://github.com/"@) {
        Some(rest) => match address_reference(rest) {
            Err(_) => None,
            Ok(Some(reference)) => Some(reference),
            Ok(None) => short_reference(s),
        },
        None => short_reference(s),
    }
}

/// What a parsed reference holds.
pub open spec fn opt_reference(reference: Option<(String, String, i64)>) -> Option<
    (Seq<char>, Seq<char>, i64),
> {
    match reference {
        Some((owner, repo, number)) => Some((owner@, repo@, number)),
        None => None,
    }
}

/// The owner, the repository and the number that a reference names: an address
/// on github.com, or `owner/repository#number`.
pub fn parse_github_reference(value: &str) -> (result: Option<(String, String, i64)>)
    ensures
        opt_reference(result) == github_reference(value@),
{
    if let Some(rest) = strip_prefix(value, "https://github.com/") {
        let parts = split_text(rest, '/');
        let ghost expected = split(rest@, '/');
        assert(parts@.len() == expected.len());
        if parts.len() < 4 {
            return None;
        }
        proof {
            assert forall|i: int| 0 <= i < 4 implies #[trigger] expected[i] == parts@[i]@ by {
                assert(texts(parts@)[i] == parts@[i]@);
            }
        }
        let number: i64 = match parse_i64(parts[3].as_str()) {
            Some(number) => number,
            None => return None,
        };
        if same_text(parts[2].as_str(), "issues") || same_text(parts[2].as_str(), "pull") {
            return Some((parts[0].clone(), parts[1].clone(), number));
        }
    }
    let (repo, number) = match split_text_once(value, '#') {
        Some(halves) => halves,
        None => return None,
    };
    if !is_repo_name(repo) {
        return None;
    }
    let parts = split_text(repo, '/');
    assert(parts@.len() == split(repo@, '/').len());
    assert(texts(parts@)[0] == parts@[0]@);
    assert(texts(parts@)[1] == parts@[1]@);
    let number: i64 = match parse_i64(trim(number)) {
        Some(number) => number,
        None => return None,
    };
    Some((trim(parts[0].as_str()).to_owned(), trim(parts[1].as_str()).to_owned(), number))
}

/// The address at which GitHub tells about an issue.
pub open spec fn issue_address(owner: Seq<char>, repo: Seq<char>, number: int) -> Seq<char> {
    "https://api.github.com/repos/"@ + owner + "/"@ + repo + "/issues/"@ + signed_decimal(number)
}

/// The address at which GitHub tells about an issue.
pub fn issue_url(owner: &str, repo: &str, number: i64) -> (result: String)
    ensures
        result@ == issue_address(owner@, repo@, number as int),
{
    let mut out = "https://api.github.com/repos/".to_owned();
    out.append(owner);
    out.append("/");
    out.append(repo);
    out.append("/issues/");
    out.append(signed_text(number).as_str());
    out
}

// ---------------------------------------------------------------------------
// Searching
// ---------------------------------------------------------------------------

/// A repository and what to look for in it, where a query starts with one.
pub open spec fn repo_query(query: Seq<char>) -> Option<(Seq<char>, Seq<char>)> {
    match split_at_space(query) {
        None => None,
        Some((first, rest)) => if names_repo(trimmed(first)) && trimmed(rest).len() > 0 {
            Some((trimmed(first), trimmed(rest)))
        } else {
            None
        },
    }
}

/// A repository and what to look for in it, where a query starts with one.
pub fn split_repo_query(query: &str) -> (result: Option<(String, String)>)
    ensures
        match result {
            Some(parts) => repo_query(query@) == Some((parts.0@, parts.1@)),
            None => repo_query(query@) is None,
        },
{
    let (first, rest) = match split_text_at_space(query) {
        Some(parts) => parts,
        None => return None,
    };
    let repo = trim(first);
    let search = trim(rest);
    if is_repo_name(repo) && !search.is_empty() {
        Some((repo.to_owned(), search.to_owned()))
    } else {
        None
    }
}

/// The query that GitHub is asked, restricted to a kind and, where the text
/// names one, to a repository.
pub open spec fn search_query(query: Seq<char>, kind: Seq<char>) -> Seq<char> {
    let github_type = if kind == "pull_request"@ {
        "pr"@
    } else {
        "issue"@
    };
    match repo_query(query) {
        Some((repo, search)) => search + " repo:"@ + repo + " type:"@ + github_type,
        None => query + " type:"@ + github_type,
    }
}

/// The query that GitHub is asked.
pub fn github_search_query(query: &str, kind: &str) -> (result: String)
    ensures
        result@ == search_query(query@, kind@),
{
    let github_type = if same_text(kind, "pull_request") {
        "pr"
    } else {
        "issue"
    };
    if let Some((repo, search)) = split_repo_query(query) {
        let mut out = search;
        out.append(" repo:");
        out.append(repo.as_str());
        out.append(" type:");
        out.append(github_type);
        return out;
    }
    let mut out = query.to_owned();
    out.append(" type:");
    out.append(github_type);
    out
}

/// What a user looks for.
#[derive(Debug)]
pub struct GithubSearchInput {
    pub query: String,
    pub github_kind: Option<String>,
}

/// An issue or a pull request as GitHub tells about it.
#[derive(Debug)]
pub struct GithubIssue {
    pub html_url: String,
    pub repository_url: String,
    pub number: i64,
    pub title: String,
    pub state: String,
    pub is_pull_request: bool,
}

/// What a [`GithubIssue`] holds.
#[verifier::ext_equal]
pub struct GithubIssueModel {
    pub html_url: Seq<char>,
    pub repository_url: Seq<char>,
    pub number: i64,
    pub title: Seq<char>,
    pub state: Seq<char>,
    pub is_pull_request: bool,
}

impl View for GithubIssue {
    type V = GithubIssueModel;

    open spec fn view(&self) -> GithubIssueModel {
        GithubIssueModel {
            html_url: self.html_url@,
            repository_url: self.repository_url@,
            number: self.number,
            title: self.title@,
            state: self.state@,
            is_pull_request: self.is_pull_request,
        }
    }
}

/// An issue or a pull request as it is offered to the user.
#[derive(Debug)]
pub struct GithubSearchResult {
    pub title: String,
    pub reference: String,
    pub url: String,
    pub repository: String,
    pub number: i64,
    pub state: String,
}

/// What a [`GithubSearchResult`] holds.
#[verifier::ext_equal]
pub struct GithubSearchResultModel {
    pub title: Seq<char>,
    pub reference: Seq<char>,
    pub url: Seq<char>,
    pub repository: Seq<char>,
    pub number: i64,
    pub state: Seq<char>,
}

impl View for GithubSearchResult {
    type V = GithubSearchResultModel;

    open spec fn view(&self) -> GithubSearchResultModel {
        GithubSearchResultModel {
            title: self.title@,
            reference: self.reference@,
            url: self.url@,
            repository: self.repository@,
            number: self.number,
            state: self.state@,
        }
    }
}

/// The result that an issue gives: none where its repository has no address on
/// the service.
pub open spec fn result_of(issue: GithubIssueModel) -> Option<GithubSearchResultModel> {
    match after_prefix(issue.repository_url, "https://api.github.com/repos/"@) {
        None => None,
        Some(repository) => Some(
            GithubSearchResultModel {
                title: issue.title,
                reference: repository + "#"@ + signed_decimal(issue.number as int),
                url: issue.html_url,
                repository,
                number: issue.number,
                state: issue.state,
            },
        ),
    }
}

/// The result that an issue gives.
pub fn issue_to_result(issue: GithubIssue) -> (result: Option<GithubSearchResult>)
    ensures
        match result {
            Some(found) => result_of(issue@) == Some(found@),
            None => result_of(issue@) is None,
        },
{
    let repository = match strip_prefix(
        issue.repository_url.as_str(),
        "https://api.github.com/repos/",
    ) {
        Some(repository) => repository.to_owned(),
        None => return None,
    };
    let mut reference = repository.clone();
    reference.append("#");
    reference.append(signed_text(issue.number).as_str());
    Some(
        GithubSearchResult {
            reference,
            title: issue.title,
            url: issue.html_url,
            repository,
            number: issue.number,
            state: issue.state,
        },
    )
}

/// The results of the issues of one kind, in their order.
pub open spec fn results_of(issues: Seq<GithubIssueModel>, pull_requests: bool) -> Seq<
    GithubSearchResultModel,
>
    decreases issues.len(),
{
    if issues.len() == 0 {
        Seq::empty()
    } else {
        let before = results_of(issues.drop_last(), pull_requests);
        match result_of(issues.last()) {
            Some(found) => if issues.last().is_pull_request == pull_requests {
                before.push(found)
            } else {
                before
            },
            None => before,
        }
    }
}

/// The results of the issues of one kind, in their order.
fn select_results(
    issues: Vec<GithubIssue>,
    pull_requests: bool,
) -> (result: Vec<GithubSearchResult>)
    ensures
        models(result@) == results_of(models(issues@), pull_requests),
{
    let ghost all = models(issues@);
    let mut found: Vec<GithubSearchResult> = Vec::new();
    assert(models(found@) == results_of(all.take(0), pull_requests));
    for issue in it: issues
        invariant
            it.seq() == issues@,
            all == models(issues@),
            models(found@) == results_of(all.take(it.index()), pull_requests),
    {
        let ghost i = it.index();
        proof {
            assert(all.take(i + 1).drop_last() == all.take(i));
            assert(all.take(i + 1).last() == issues@[i]@);
        }
        let ghost before = models(found@);
        if issue.is_pull_request == pull_requests {
            if let Some(one) = issue_to_result(issue) {
                found.push(one);
                assert(models(found@) == before.push(one@));
            }
        }
    }
    assert(all.take(all.len() as int) == all);
    found
}

/// What has happened in a search so far.
#[derive(Debug)]
pub enum SearchEvent {
    /// The user asked.
    Asked(GithubSearchInput),
    /// GitHub told about the one issue that was asked for.
    IssueFound(GithubIssue),
    /// GitHub listed issues and pull requests.
    IssuesListed { issues: Vec<GithubIssue>, pull_requests: bool },
}

/// What a search needs next.
#[derive(Debug)]
pub enum SearchStep {
    /// Nothing: these are the results.
    Done(Vec<GithubSearchResult>),
    /// The issue at this address.
    FetchIssue { url: String },
    /// The issues and pull requests that this query finds.
    ListIssues { query: String, pull_requests: bool },
}

/// The kind that is searched for where the user names none.
pub open spec fn search_kind(kind: Option<Seq<char>>) -> Seq<char> {
    match optional_name(kind) {
        Some(kind) => kind,
        None => "issue"@,
    }
}

/// One step of a search: a query shorter than three bytes finds nothing, a
/// reference is fetched, anything else is searched for; a fetched issue is the
/// result, and of a list only what has the kind that was asked for.
pub fn search_github_references_inner(event: SearchEvent) -> (result: SearchStep)
    ensures
        match event {
            SearchEvent::Asked(input) => {
                let query = trimmed(input.query@);
                let kind = search_kind(opt_text(input.github_kind));
                if encode_utf8(query).len() < 3 {
                    result matches SearchStep::Done(found) && found@.len() == 0
                } else {
                    match github_reference(query) {
                        Some((owner, repo, number)) => result matches SearchStep::FetchIssue {
                            url,
                        } && url@ == issue_address(owner, repo, number as int),
                        None => result matches SearchStep::ListIssues {
                            query: asked,
                            pull_requests,
                        } && asked@ == search_query(query, kind) && pull_requests == (kind
                            == "pull_request"@),
                    }
                }
            },
            SearchEvent::IssueFound(issue) => result matches SearchStep::Done(found)
                && models(found@) == (match result_of(issue@) {
                Some(one) => seq![one],
                None => Seq::empty(),
            }),
            SearchEvent::IssuesListed { issues, pull_requests } => result matches SearchStep::Done(
                found,
            ) && models(found@) == results_of(models(issues@), pull_requests),
        },
{
    match event {
        SearchEvent::Asked(input) => {
            let query = trim(input.query.as_str());
            if query.as_bytes().len() < 3 {
                return SearchStep::Done(Vec::new());
            }
            let kind = match normalize_optional(input.github_kind) {
                Some(kind) => kind,
                None => "issue".to_owned(),
            };
            match parse_github_reference(query) {
                Some((owner, repo, number)) => SearchStep::FetchIssue {
                    url: issue_url(owner.as_str(), repo.as_str(), number),
                },
                None => SearchStep::ListIssues {
                    query: github_search_query(query, kind.as_str()),
                    pull_requests: same_text(kind.as_str(), "pull_request"),
                },
            }
        },
        SearchEvent::IssueFound(issue) => {
            let mut found: Vec<GithubSearchResult> = Vec::new();
            match issue_to_result(issue) {
                Some(one) => {
                    found.push(one);
                    assert(models(found@) == seq![one@]);
                },
                None => {
                    assert(models(found@) == Seq::<GithubSearchResultModel>::empty());
                },
            }
            SearchStep::Done(found)
        },
        SearchEvent::IssuesListed { issues, pull_requests } => SearchStep::Done(
            select_results(issues, pull_requests),
        ),
    }
}

// ---------------------------------------------------------------------------
// The token
// ---------------------------------------------------------------------------

/// The token that a user enters; a blank one takes the token away.
#[derive(Debug)]
pub struct GithubTokenInput {
    pub token: Option<String>,
}

/// What to do with the token that is stored.
#[derive(Debug)]
pub enum TokenUpdate {
    /// Store this token.
    Keep(String),
    /// Take the stored token away, if there is one.
    Remove,
}

/// What a user's entry asks to do with the token that is stored.
pub fn set_github_token_inner(input: GithubTokenInput) -> (result: TokenUpdate)
    ensures
        match result {
            TokenUpdate::Keep(token) => optional_name(opt_text(input.token)) == Some(token@),
            TokenUpdate::Remove => optional_name(opt_text(input.token)) is None,
        },
{
    match normalize_optional(input.token) {
        Some(token) => TokenUpdate::Keep(token),
        None => TokenUpdate::Remove,
    }
}

// ---------------------------------------------------------------------------
// Keeping the state of tasks up to date
// ---------------------------------------------------------------------------

/// Whether a task's state on GitHub is due to be asked for: the task refers to an
/// issue or a pull request, and the state was not read in the last half hour.
pub open spec fn refresh_is_due(task: TaskModel, now: Timestamp) -> bool {
    &&& task.github_kind == Some("issue"@) || task.github_kind == Some("pull_request"@)
    &&& task.github_reference is Some
    &&& match task.github_checked_at {
        None => true,
        Some(text) => match reading(text) {
            Err(_) => true,
            Ok(checked) => is_stale(checked, now),
        },
    }
}

/// Whether a task's state on GitHub is due to be asked for at a given instant.
pub fn should_refresh_github_task_state_at(task: &Task, now: Timestamp) -> (result: bool)
    requires
        now.from_clock(),
    ensures
        result == refresh_is_due(task@, now),
{
    let known_kind = match &task.github_kind {
        Some(kind) => same_text(kind.as_str(), "issue") || same_text(kind.as_str(), "pull_request"),
        None => false,
    };
    if !known_kind || task.github_reference.is_none() {
        return false;
    }
    match &task.github_checked_at {
        None => true,
        Some(text) => match parse_instant(text.as_str()) {
            Err(_) => true,
            Ok(checked) => older_than_half_an_hour(checked, now),
        },
    }
}

/// Whether a task's state on GitHub is due to be asked for.
pub fn should_refresh_github_task_state(task: &Task) -> (result: bool)
    ensures
        exists|now: Timestamp| #[trigger] now.from_clock() && result == refresh_is_due(task@, now),
{
    let now = utc_now();
    should_refresh_github_task_state_at(task, now)
}

/// The address to ask for a task's state, where asking is due and the reference
/// can be read.
pub open spec fn refresh_address(task: TaskModel, now: Timestamp) -> Option<Seq<char>> {
    if !refresh_is_due(task, now) {
        None
    } else {
        match github_reference(task.github_reference->Some_0) {
            Some((owner, repo, number)) => Some(issue_address(owner, repo, number as int)),
            None => None,
        }
    }
}

/// The address to ask for a task's state at a given instant.
pub fn refresh_url_at(task: &Task, now: Timestamp) -> (result: Option<String>)
    requires
        now.from_clock(),
    ensures
        opt_text(result) == refresh_address(task@, now),
{
    if !should_refresh_github_task_state_at(task, now) {
        return None;
    }
    match &task.github_reference {
        Some(reference) => match parse_github_reference(reference.as_str()) {
            Some((owner, repo, number)) => Some(issue_url(owner.as_str(), repo.as_str(), number)),
            None => None,
        },
        None => None,
    }
}

/// A request for the state of a task.
#[derive(Debug)]
pub struct RefreshRequest {
    pub task_id: i64,
    pub url: String,
}

impl View for RefreshRequest {
    type V = (i64, Seq<char>);

    open spec fn view(&self) -> (i64, Seq<char>) {
        (self.task_id, self.url@)
    }
}

/// Whether a task's state is to be asked for.
pub open spec fn is_asked_for(now: Timestamp) -> spec_fn(TaskWithSubtasksModel) -> bool {
    |item: TaskWithSubtasksModel| refresh_address(item.task, now) is Some
}

/// The request for a task's state.
pub open spec fn request_for(now: Timestamp) -> spec_fn(TaskWithSubtasksModel) -> (i64, Seq<char>) {
    |item: TaskWithSubtasksModel| (item.task.id, refresh_address(item.task, now)->Some_0)
}

/// The requests to be made for listed tasks, in their order: one for each task
/// whose state is due, and none without a token.
pub open spec fn refresh_requests(
    token: Option<Seq<char>>,
    tasks: Seq<TaskWithSubtasksModel>,
    now: Timestamp,
) -> Seq<(i64, Seq<char>)> {
    if optional_name(token) is None {
        Seq::empty()
    } else {
        tasks.filter(is_asked_for(now)).map_values(request_for(now))
    }
}

/// The requests to be made for listed tasks at a given instant.
pub fn refresh_github_task_states_inner_at(
    token: &Option<String>,
    tasks: &Vec<TaskWithSubtasks>,
    now: Timestamp,
) -> (result: Vec<RefreshRequest>)
    requires
        now.from_clock(),
    ensures
        models(result@) == refresh_requests(opt_text(*token), models(tasks@), now),
{
    broadcast use models_of_push;

    let mut requests: Vec<RefreshRequest> = Vec::new();
    let usable = match token {
        Some(token) => !trim(token.as_str()).is_empty(),
        None => false,
    };
    if !usable {
        assert(models(requests@) == Seq::<(i64, Seq<char>)>::empty());
        return requests;
    }
    let ghost all = models(tasks@);
    let ghost test = is_asked_for(now);
    let ghost request = request_for(now);
    proof {
        reveal(Seq::filter);
        assert(models(requests@) == all.take(0).filter(test).map_values(request));
    }
    for i in 0..tasks.len()
        invariant
            now.from_clock(),
            all == models(tasks@),
            test == is_asked_for(now),
            request == request_for(now),
            models(requests@) == all.take(i as int).filter(test).map_values(request),
    {
        let ghost so_far = all.take(i as int);
        let ghost item = all[i as int];
        proof {
            assert(tasks@[i as int]@ == item);
            assert(all.take(i + 1) == so_far.push(item));
            lemma_filter_push(so_far, item, test);
            assert(so_far.filter(test).push(item).map_values(request) == so_far.filter(
                test,
            ).map_values(request).push(request(item)));
        }
        if let Some(url) = refresh_url_at(&tasks[i].task, now) {
            requests.push(RefreshRequest { task_id: tasks[i].task.id, url });
        }
    }
    assert(all.take(all.len() as int) == all);
    requests
}

/// The requests to be made for listed tasks now.
pub fn refresh_github_task_states_inner(
    token: &Option<String>,
    tasks: &Vec<TaskWithSubtasks>,
) -> (result: Vec<RefreshRequest>)
    ensures
        exists|now: Timestamp| #[trigger]
            now.from_clock() && models(result@) == refresh_requests(
                opt_text(*token),
                models(tasks@),
                now,
            ),
{
    let now = utc_now();
    refresh_github_task_states_inner_at(token, tasks, now)
}

// ---------------------------------------------------------------------------
// Laws
// ---------------------------------------------------------------------------

/// Whether a text can be an owner or a repository: not empty, without a slash or a
/// number sign, and without spaces around it.
pub open spec fn is_plain_name(s: Seq<char>) -> bool {
    &&& s.len() > 0
    &&& trimmed(s) == s
    &&& forall|i: int| 0 <= i < s.len() ==> #[trigger] s[i] != '/' && s[i] != '#'
}

/// The text `owner/repository#number`.
pub open spec fn short_text(owner: Seq<char>, repo: Seq<char>, number: i64) -> Seq<char> {
    owner + seq!['/'] + repo + seq!['#'] + signed_decimal(number as int)
}

/// A reference in short names the owner, the repository and the number that it is
/// made of.
pub proof fn short_references_read_back(owner: Seq<char>, repo: Seq<char>, number: i64)
    requires
        is_plain_name(owner),
        is_plain_name(repo),
    ensures
        github_reference(short_text(owner, repo, number)) == Some((owner, repo, number)),
{
    let digits = signed_decimal(number as int);
    let repository = owner + seq!['/'] + repo;
    let s = short_text(owner, repo, number);
    let prefix = "https://github.com/"@;
    reveal_strlit("https://github.com/");
    numbers_are_written_in_digits(number);
    written_numbers_read_back(number);
    if prefix.is_prefix_of(s) {
        assert(s[6] == prefix[6] && s[7] == prefix[7]);
        let n = owner.len() as int;
        assert forall|i: int| 0 <= i < s.len() && i != n implies #[trigger] s[i] != '/' by {
            if i < n {
                assert(s[i] == owner[i]);
            } else if i < n + 1 + repo.len() {
                assert(s[i] == repo[i - n - 1]);
            } else if i > n + 1 + repo.len() {
                assert(s[i] == digits[i - n - repo.len() - 2]);
            }
        }
    }
    assert forall|i: int| 0 <= i < repository.len() implies #[trigger] repository[i] != '#' by {
        let n = owner.len() as int;
        if i < n {
            assert(repository[i] == owner[i]);
        } else if i > n {
            assert(repository[i] == repo[i - n - 1]);
        }
    }
    until_the_joint(repository, '#', digits);
    first_part(owner, '/', repo);
    one_part(repo, '/');
    assert(split(repository, '/') == seq![owner, repo]);
    nothing_to_trim(digits);
}

/// The address of an issue or a pull request on github.com: `marker` is `issues` or
/// `pull`.
pub open spec fn web_address(
    owner: Seq<char>,
    repo: Seq<char>,
    marker: Seq<char>,
    number: i64,
) -> Seq<char> {
    "https://github.com/"@ + (owner + seq!['/'] + (repo + seq!['/'] + (marker + seq!['/']
        + signed_decimal(number as int))))
}

/// The address of an issue or a pull request names the owner, the repository and
/// the number that it is made of.
pub proof fn web_addresses_read_back(
    owner: Seq<char>,
    repo: Seq<char>,
    marker: Seq<char>,
    number: i64,
)
    requires
        is_plain_name(owner),
        is_plain_name(repo),
        marker == "issues"@ || marker == "pull"@,
    ensures
        github_reference(web_address(owner, repo, marker, number)) == Some((owner, repo, number)),
{
    let digits = signed_decimal(number as int);
    let prefix = "https://github.com/"@;
    let s = web_address(owner, repo, marker, number);
    let marked = marker + seq!['/'] + digits;
    let named = repo + seq!['/'] + marked;
    let rest = owner + seq!['/'] + named;
    reveal_strlit("issues");
    reveal_strlit("pull");
    numbers_are_written_in_digits(number);
    written_numbers_read_back(number);
    assert(s.subrange(0, prefix.len() as int) == prefix);
    assert(s.skip(prefix.len() as int) == rest);
    first_part(owner, '/', named);
    first_part(repo, '/', marked);
    first_part(marker, '/', digits);
    one_part(digits, '/');
    assert(split(rest, '/') == seq![owner, repo, marker, digits]);
}

/// What a search finds is named in a way that leads back to it.
pub proof fn found_references_read_back(
    issue: GithubIssueModel,
    owner: Seq<char>,
    repo: Seq<char>,
)
    requires
        is_plain_name(owner),
        is_plain_name(repo),
        issue.repository_url == "https://api.github.com/repos/"@ + (owner + seq!['/'] + repo),
    ensures
        result_of(issue) matches Some(found) && github_reference(found.reference) == Some(
            (owner, repo, issue.number),
        ),
{
    let prefix = "https://api.github.com/repos/"@;
    let repository = owner + seq!['/'] + repo;
    let url = issue.repository_url;
    reveal_strlit("#");
    assert(url.subrange(0, prefix.len() as int) == prefix);
    assert(url.skip(prefix.len() as int) == repository);
    assert("#"@ == seq!['#']);
    short_references_read_back(owner, repo, issue.number);
}

/// A state that was read is not asked for again in the half hour that follows, and
/// is asked for after that, where the task refers to an issue or a pull request.
pub proof fn states_are_asked_for_half_hourly(task: TaskModel, checked: Timestamp, now: Timestamp)
    requires
        can_be_written(checked),
        task.github_checked_at == Some(utc_text(checked)),
    ensures
        now.secs - checked.secs < 1800 ==> !refresh_is_due(task, now),
        now.secs - checked.secs > 1800 ==> refresh_is_due(task, now) == ((task.github_kind == Some(
            "issue"@,
        ) || task.github_kind == Some("pull_request"@)) && task.github_reference is Some),
{
    instants_are_written_by_the_second(checked);
    written_instants_read_back(whole_second(checked));
}

/// Whether a character does not occur in a text.
pub open spec fn lacks(s: Seq<char>, c: char) -> bool {
    forall|i: int| 0 <= i < s.len() ==> #[trigger] s[i] != c
}

/// A repository's name is an owner and a name with one slash between them, neither of
/// them empty; nothing else is one.
pub proof fn a_repository_has_an_owner_and_a_name(owner: Seq<char>, name: Seq<char>, s: Seq<char>)
    ensures
        owner.len() > 0 && name.len() > 0 && lacks(owner, '/') && lacks(name, '/') ==> names_repo(
            owner + seq!['/'] + name,
        ),
        names_repo(s) ==> exists|a: Seq<char>, b: Seq<char>|
            a.len() > 0 && b.len() > 0 && lacks(a, '/') && lacks(b, '/') && s == #[trigger] (a
                + seq!['/'] + b),
{
    if owner.len() > 0 && name.len() > 0 && lacks(owner, '/') && lacks(name, '/') {
        first_part(owner, '/', name);
        one_part(name, '/');
        assert(split(owner + seq!['/'] + name, '/') == seq![owner, name]);
    }
    if names_repo(s) {
        lemma_two_parts(s, '/');
        let parts = split(s, '/');
        assert(s == parts[0] + seq!['/'] + parts[1]);
    }
}

/// The parts of a text that one separator parts.
proof fn lemma_two_parts(s: Seq<char>, c: char)
    requires
        split(s, c).len() == 2,
    ensures
        s == split(s, c)[0] + seq![c] + split(s, c)[1],
        lacks(split(s, c)[0], c),
        lacks(split(s, c)[1], c),
{
    let n = until(s, c) as int;
    until_is_the_first_place(s, c);
    let head = s.take(n);
    let tail = s.skip(n + 1);
    assert(split(s, c) == seq![head] + split(tail, c));
    assert(split(s, c)[0] == head);
    assert forall|i: int| 0 <= i < head.len() implies #[trigger] head[i] != c by {
        assert(head[i] == s[i]);
    }
    until_is_the_first_place(tail, c);
    if until(tail, c) < tail.len() {
        let m = until(tail, c) as int;
        let rest = tail.skip(m + 1);
        assert(split(tail, c) == seq![tail.take(m)] + split(rest, c));
        lemma_some_part(rest, c);
    }
    assert(split(tail, c) == seq![tail]);
    assert(s == head + seq![c] + tail);
}

/// Every text has a part.
proof fn lemma_some_part(s: Seq<char>, c: char)
    ensures
        split(s, c).len() > 0,
{
}

/// A query that starts with a repository's name and a space is a search in that
/// repository for what follows, without the spaces around it.
pub proof fn a_repository_restricts_the_search(repo: Seq<char>, c: char, rest: Seq<char>)
    requires
        names_repo(repo),
        forall|i: int| 0 <= i < repo.len() ==> !is_space(#[trigger] repo[i]),
        is_space(c),
        trimmed(rest).len() > 0,
    ensures
        repo_query(repo + seq![c] + rest) == Some((repo, trimmed(rest))),
{
    let s = repo + seq![c] + rest;
    a_text_is_parted_at_its_first_separator(s, c);
    let n = repo.len() as int;
    assert(s[n] == c);
    if split_at_space(s) is None {
        assert(!is_space(s[n]));
    }
    let (head, tail) = split_at_space(s)->Some_0;
    let h = head.len() as int;
    if h < n {
        assert(s[h] == repo[h]);
    }
    if n < h {
        assert(head[n] == s[n]);
    }
    assert(head == repo) by {
        assert(s.take(n) == repo);
        assert(s.take(h) == head);
    }
    assert(tail == rest) by {
        assert(s.skip(n + 1) == rest);
        assert(s.skip(h + 1) == tail);
    }
    nothing_to_trim(repo);
}

/// A search is restricted to a repository only where the query starts with its name
/// and a space, and something is to be looked for.
pub proof fn only_a_repository_restricts_the_search(query: Seq<char>)
    ensures
        repo_query(query) matches Some((repo, search)) ==> {
            &&& names_repo(repo)
            &&& search.len() > 0
            &&& repo.len() < query.len()
            &&& is_space(query[repo.len() as int])
            &&& query.take(repo.len() as int) == repo
            &&& search == trimmed(query.skip(repo.len() as int + 1))
        },
{
    a_text_is_parted_at_its_first_separator(query, ' ');
    if let Some((repo, search)) = repo_query(query) {
        let (head, tail) = split_at_space(query)->Some_0;
        if head.len() > 0 {
            assert(!is_space(head[0]));
            assert(!is_space(head[head.len() - 1]));
        }
        nothing_to_trim(head);
        assert(query.take(head.len() as int) == head);
        assert(query.skip(head.len() as int + 1) == tail);
    }
}

/// What GitHub is asked ends with the kind that is wanted: pull requests where the
/// kind says so, issues otherwise. Before that it has what the user looks for, and
/// the repository where the query names one.
pub proof fn the_search_ends_with_its_kind(query: Seq<char>, kind: Seq<char>)
    ensures
        ({
            let asked = search_query(query, kind);
            let ending = if kind == "pull_request"@ {
                " type:pr"@
            } else {
                " type:issue"@
            };
            let n = asked.len() - ending.len();
            &&& n >= 0
            &&& asked.skip(n) == ending
            &&& asked.take(n) == match repo_query(query) {
                Some((repo, search)) => search + " repo:"@ + repo,
                None => query,
            }
        }),
{
    reveal_strlit(" type:");
    reveal_strlit("pr");
    reveal_strlit("issue");
    reveal_strlit(" type:pr");
    reveal_strlit(" type:issue");
    assert(" type:"@ + "pr"@ == " type:pr"@);
    assert(" type:"@ + "issue"@ == " type:issue"@);
    let asked = search_query(query, kind);
    let ending = if kind == "pull_request"@ {
        " type:pr"@
    } else {
        " type:issue"@
    };
    let n = asked.len() - ending.len();
    let head = match repo_query(query) {
        Some((repo, search)) => search + " repo:"@ + repo,
        None => query,
    };
    assert(asked == head + ending);
    assert(asked.take(n) == head);
    assert(asked.skip(n) == ending);
}

/// A text that is no address of github.com is a reference exactly where it is an
/// owner, a slash, a name, a number sign and a number; the owner, the name and the
/// number may have spaces around them.
pub proof fn short_references_have_their_parts(
    owner: Seq<char>,
    name: Seq<char>,
    number: Seq<char>,
    s: Seq<char>,
)
    requires
        after_prefix(s, "https://github.com/"@) is None,
    ensures
        owner.len() > 0 && name.len() > 0 && lacks(owner, '/') && lacks(name, '/') && lacks(
            owner,
            '#',
        ) && lacks(name, '#') && s == owner + seq!['/'] + name + seq!['#'] + number
            ==> github_reference(s) == (match i64_value(trimmed(number)) {
            Some(n) => Some((trimmed(owner), trimmed(name), n)),
            None => None,
        }),
        github_reference(s) matches Some(found) ==> exists|a: Seq<char>, b: Seq<char>, d: Seq<char>|
            {
                &&& s == #[trigger] (a + seq!['/'] + b + seq!['#'] + d)
                &&& a.len() > 0 && b.len() > 0
                &&& found.0 == trimmed(a)
                &&& found.1 == trimmed(b)
                &&& i64_value(trimmed(d)) == Some(found.2)
            },
{
    if owner.len() > 0 && name.len() > 0 && lacks(owner, '/') && lacks(name, '/') && lacks(
        owner,
        '#',
    ) && lacks(name, '#') && s == owner + seq!['/'] + name + seq!['#'] + number {
        let repository = owner + seq!['/'] + name;
        assert forall|i: int| 0 <= i < repository.len() implies #[trigger] repository[i] != '#' by {
            let n = owner.len() as int;
            if i < n {
                assert(repository[i] == owner[i]);
            } else if i > n {
                assert(repository[i] == name[i - n - 1]);
            }
        }
        until_the_joint(repository, '#', number);
        first_part(owner, '/', name);
        one_part(name, '/');
        assert(split(repository, '/') == seq![owner, name]);
    }
    if let Some(found) = github_reference(s) {
        a_text_is_parted_at_its_first_separator(s, '#');
        let (repository, d) = split_once(s, '#')->Some_0;
        lemma_two_parts(repository, '/');
        let parts = split(repository, '/');
        assert(s == parts[0] + seq!['/'] + parts[1] + seq!['#'] + d);
    }
}

/// The address of an issue or a pull request names it too where the address goes on
/// after the number.
pub proof fn longer_addresses_read_back(
    owner: Seq<char>,
    repo: Seq<char>,
    marker: Seq<char>,
    number: i64,
    more: Seq<char>,
)
    requires
        is_plain_name(owner),
        is_plain_name(repo),
        marker == "issues"@ || marker == "pull"@,
    ensures
        github_reference(web_address(owner, repo, marker, number) + seq!['/'] + more) == Some(
            (owner, repo, number),
        ),
{
    let digits = signed_decimal(number as int);
    let prefix = "https://github.com/"@;
    let s = web_address(owner, repo, marker, number) + seq!['/'] + more;
    let numbered = digits + seq!['/'] + more;
    let marked = marker + seq!['/'] + numbered;
    let named = repo + seq!['/'] + marked;
    let rest = owner + seq!['/'] + named;
    reveal_strlit("issues");
    reveal_strlit("pull");
    numbers_are_written_in_digits(number);
    written_numbers_read_back(number);
    assert(s == prefix + rest);
    assert(s.subrange(0, prefix.len() as int) == prefix);
    assert(s.skip(prefix.len() as int) == rest);
    first_part(owner, '/', named);
    first_part(repo, '/', marked);
    first_part(marker, '/', numbered);
    first_part(digits, '/', more);
    let parts = split(rest, '/');
    assert(parts == seq![owner, repo, marker, digits] + split(more, '/'));
    assert(parts[0] == owner && parts[1] == repo && parts[2] == marker && parts[3] == digits);
}

/// What is found has the title, the address, the number and the state of its issue;
/// its repository is what its address on the service ends with, and its reference is
/// the repository, a number sign and the number. An issue without such an address is
/// not found.
pub proof fn what_is_found_is_the_issue(issue: GithubIssueModel)
    ensures
        match result_of(issue) {
            Some(found) => {
                &&& found.title == issue.title
                &&& found.url == issue.html_url
                &&& found.number == issue.number
                &&& found.state == issue.state
                &&& issue.repository_url == "https://api.github.com/repos/"@ + found.repository
                &&& found.reference == found.repository + seq!['#'] + signed_decimal(
                    issue.number as int,
                )
            },
            None => forall|repository: Seq<char>|
                issue.repository_url != #[trigger] ("https://api.github.com/repos/"@ + repository),
        },
{
    reveal_strlit("#");
    assert("#"@ == seq!['#']);
    a_prefix_and_the_rest_are_the_text(
        "https://api.github.com/repos/"@,
        Seq::empty(),
        issue.repository_url,
    );
}

/// What a list gives is what its issues give one by one, in their order, of those of
/// the kind that was asked for.
pub proof fn a_list_gives_what_its_issues_give(
    a: Seq<GithubIssueModel>,
    b: Seq<GithubIssueModel>,
    issue: GithubIssueModel,
    pull_requests: bool,
)
    ensures
        results_of(a + b, pull_requests) == results_of(a, pull_requests) + results_of(
            b,
            pull_requests,
        ),
        results_of(seq![issue], pull_requests) == (if issue.is_pull_request == pull_requests
            && result_of(issue) is Some {
            seq![result_of(issue)->Some_0]
        } else {
            Seq::empty()
        }),
    decreases b.len(),
{
    let one = seq![issue];
    assert(one.drop_last() == Seq::<GithubIssueModel>::empty());
    assert(results_of(one.drop_last(), pull_requests) == Seq::<GithubSearchResultModel>::empty());
    if result_of(issue) is Some {
        assert(Seq::<GithubSearchResultModel>::empty().push(result_of(issue)->Some_0) == seq![
            result_of(issue)->Some_0,
        ]);
    }
    if b.len() == 0 {
        assert(a + b == a);
        assert(results_of(a, pull_requests) + results_of(b, pull_requests) == results_of(
            a,
            pull_requests,
        ));
    } else {
        a_list_gives_what_its_issues_give(a, b.drop_last(), issue, pull_requests);
        assert((a + b).drop_last() == a + b.drop_last());
        assert((a + b).last() == b.last());
        assert(results_of(a + b, pull_requests) == results_of(a, pull_requests) + results_of(
            b,
            pull_requests,
        ));
    }
}

/// A state is asked for only of a task that refers to an issue or a pull request, and
/// of such a task wherever it was never checked, or when that was cannot be read.
pub proof fn states_are_asked_for_of_linked_tasks(task: TaskModel, now: Timestamp)
    ensures
        refresh_is_due(task, now) ==> task.github_reference is Some && (task.github_kind == Some(
            "issue"@,
        ) || task.github_kind == Some("pull_request"@)),
        task.github_reference is Some && (task.github_kind == Some("issue"@) || task.github_kind
            == Some("pull_request"@)) && (task.github_checked_at is None || reading(
            task.github_checked_at->Some_0,
        ) is Err) ==> refresh_is_due(task, now),
        match refresh_address(task, now) {
            Some(address) => refresh_is_due(task, now) && github_reference(
                task.github_reference->Some_0,
            ) is Some && address == ({
                let found = github_reference(task.github_reference->Some_0)->Some_0;
                "https://api.github.com/repos/"@ + found.0 + seq!['/'] + found.1 + "/issues/"@
                    + signed_decimal(found.2 as int)
            }),
            None => !refresh_is_due(task, now) || github_reference(
                task.github_reference->Some_0,
            ) is None,
        },
{
    reveal_strlit("/");
    assert("/"@ == seq!['/']);
}

/// The requests for listed tasks are those for each of them, in their order: one to
/// its address where its state is to be asked for. Without a token there are none.
pub proof fn requests_are_made_task_by_task(
    token: Seq<char>,
    a: Seq<TaskWithSubtasksModel>,
    b: Seq<TaskWithSubtasksModel>,
    item: TaskWithSubtasksModel,
    now: Timestamp,
)
    ensures
        refresh_requests(None, a, now).len() == 0,
        trimmed(token).len() == 0 ==> refresh_requests(Some(token), a, now).len() == 0,
        refresh_requests(Some(token), a + b, now) == refresh_requests(Some(token), a, now)
            + refresh_requests(Some(token), b, now),
        trimmed(token).len() > 0 ==> refresh_requests(Some(token), seq![item], now) == (
        match refresh_address(item.task, now) {
            Some(address) => seq![(item.task.id, address)],
            None => Seq::empty(),
        }),
{
    let test = is_asked_for(now);
    let request = request_for(now);
    Seq::filter_distributes_over_add(a, b, test);
    assert((a.filter(test) + b.filter(test)).map_values(request) == a.filter(test).map_values(
        request,
    ) + b.filter(test).map_values(request));
    assert(Seq::<(i64, Seq<char>)>::empty() + Seq::<(i64, Seq<char>)>::empty() == Seq::<
        (i64, Seq<char>),
    >::empty());
    let none = Seq::<TaskWithSubtasksModel>::empty();
    assert(seq![item] == none.push(item));
    lemma_filter_push(none, item, test);
    reveal(Seq::filter);
    assert(none.filter(test) == none);
    if trimmed(token).len() > 0 {
        if refresh_address(item.task, now) is Some {
            assert(seq![item].filter(test) == seq![item]);
            assert(seq![item].map_values(request) == seq![request(item)]);
        } else {
            assert(seq![item].filter(test) == none);
            assert(none.map_values(request) == Seq::<(i64, Seq<char>)>::empty());
        }
    }
}

/// Issues are searched for unless the user names another kind, which is taken without
/// the spaces around it.
pub proof fn issues_are_searched_for_by_default(kind: Seq<char>)
    ensures
        search_kind(None) == "issue"@,
        trimmed(kind).len() == 0 ==> search_kind(Some(kind)) == "issue"@,
        trimmed(kind).len() > 0 ==> search_kind(Some(kind)) == trimmed(kind),
{
}

} // verus!
