//! What the tray shows, and what its menu asks for.

use vstd::prelude::*;
use vstd::string::StrSliceExecFns;
use vstd::string::StringExecFns;
use crate::number::{
    i64_value, padded, padded_text, parse_i64, signed_decimal, signed_text,
    written_numbers_read_back,
};
use crate::records::{ActiveTimer, ActiveTimerModel, TaskWithSubtasks};
use crate::text::{
    a_prefix_and_the_rest_are_the_text, after_prefix, chars_of, same_text, strip_prefix,
};

verus! {

/// How many tasks the tray's menu offers to start.
pub const TRAY_TASKS: usize = 8;

// ---------------------------------------------------------------------------
// Labels
// ---------------------------------------------------------------------------

/// A text that is too long, cut short with three dots in place of its end.
pub open spec fn shortened(s: Seq<char>, most: int) -> Seq<char> {
    if s.len() <= most {
        s
    } else {
        s.take(most - 1) + "..."@
    }
}

/// A text of at most so many characters as it is; a longer one cut short, with
/// three dots after one character less.
pub fn truncate_chars(value: &str, max_chars: usize) -> (result: String)
    requires
        max_chars > 0 || value@.len() == 0,
    ensures
        result@ == shortened(value@, max_chars as int),
{
    let count: usize = chars_of(value).len();
    if count <= max_chars {
        return value.to_owned();
    }
    let mut label = value.substring_char(0, max_chars - 1).to_owned();
    assert(label@ == value@.take(max_chars - 1));
    label.append("...");
    label
}

/// A task's name as the tray's menu shows it.
pub fn tray_label(value: &str) -> (result: String)
    ensures
        result@ == shortened(value@, 42),
{
    truncate_chars(value, 42)
}

/// A count of seconds as hours, minutes and seconds of at least two digits each;
/// a negative one as zero.
pub open spec fn hours_minutes_seconds(seconds: int) -> Seq<char> {
    let s = if seconds < 0 {
        0
    } else {
        seconds
    };
    padded((s / 3600) as nat, 2) + ":"@ + padded((s % 3600 / 60) as nat, 2) + ":"@ + padded(
        (s % 60) as nat,
        2,
    )
}

/// A count of seconds as hours, minutes and seconds.
pub fn format_duration_hms(seconds: i64) -> (result: String)
    ensures
        result@ == hours_minutes_seconds(seconds as int),
{
    let seconds: u64 = if seconds < 0 { 0 } else { seconds as u64 };
    let mut out = padded_text(seconds / 3600, 2);
    out.append(":");
    out.append(padded_text(seconds % 3600 / 60, 2).as_str());
    out.append(":");
    out.append(padded_text(seconds % 60, 2).as_str());
    out
}

/// A running timer as the tray shows it: the task, the subtask where there is
/// one, and the time.
pub open spec fn timer_label(active: ActiveTimerModel) -> Seq<char> {
    let label = match active.subtask {
        Some(subtask) => active.task.name + " / "@ + subtask.name,
        None => active.task.name,
    };
    shortened(label, 34) + " "@ + hours_minutes_seconds(active.elapsed_seconds as int)
}

/// A running timer as the tray shows it.
pub fn active_timer_tray_label(active: &ActiveTimer) -> (result: String)
    ensures
        result@ == timer_label(active@),
{
    let mut label = active.task.name.clone();
    if let Some(subtask) = &active.subtask {
        label.append(" / ");
        label.append(subtask.name.as_str());
    }
    let mut out = truncate_chars(label.as_str(), 34);
    out.append(" ");
    out.append(format_duration_hms(active.elapsed_seconds).as_str());
    out
}

/// What the tray shows: whether the database can be read, and the timer that
/// runs, if one does.
pub fn tray_status_label(available: bool, active: Option<&ActiveTimer>) -> (result: String)
    ensures
        result@ == (if !available {
            "database error"@
        } else {
            match active {
                Some(active) => timer_label(active@),
                None => "stopped"@,
            }
        }),
{
    if !available {
        return "database error".to_owned();
    }
    match active {
        Some(active) => active_timer_tray_label(active),
        None => "stopped".to_owned(),
    }
}

/// A label made short keeps within the limit and two characters more.
pub proof fn shortened_labels_are_short(s: Seq<char>, most: int)
    requires
        most > 0,
    ensures
        shortened(s, most).len() <= most + 2,
        s.len() <= most ==> shortened(s, most) == s,
        s.len() > most ==> s.take(most - 1).is_prefix_of(shortened(s, most)),
{
    reveal_strlit("...");
    if s.len() > most {
        let head = s.take(most - 1);
        assert(shortened(s, most).subrange(0, head.len() as int) == head);
    }
}

// ---------------------------------------------------------------------------
// The menu
// ---------------------------------------------------------------------------

/// An entry of the tray's menu.
#[derive(Debug)]
pub struct TrayItem {
    pub id: String,
    pub label: String,
}

/// What choosing an entry of the tray's menu asks for.
#[derive(Debug, PartialEq, Eq)]
pub enum TrayRequest {
    Show,
    Stop,
    Quit,
    StartTask(i64),
    Nothing,
}

/// The identifier of the entry that starts a task.
pub open spec fn start_task_id(task_id: int) -> Seq<char> {
    "start-task:"@ + signed_decimal(task_id)
}

/// The entries that start tasks: for the first few tasks, in their order.
pub fn tray_task_items(tasks: &Vec<TaskWithSubtasks>) -> (result: Vec<TrayItem>)
    ensures
        result@.len() == (if tasks@.len() < TRAY_TASKS {
            tasks@.len()
        } else {
            TRAY_TASKS as nat
        }),
        forall|i: int|
            0 <= i < result@.len() ==> (#[trigger] result@[i]).id@ == start_task_id(
                tasks@[i].task.id as int,
            ) && result@[i].label@ == "Start "@ + shortened(tasks@[i].task.name@, 42),
{
    let mut items: Vec<TrayItem> = Vec::new();
    let mut i: usize = 0;
    while i < tasks.len() && i < TRAY_TASKS
        invariant
            i <= tasks.len(),
            i <= TRAY_TASKS,
            items@.len() == i,
            forall|k: int|
                0 <= k < i ==> (#[trigger] items@[k]).id@ == start_task_id(tasks@[k].task.id as int)
                    && items@[k].label@ == "Start "@ + shortened(tasks@[k].task.name@, 42),
        decreases tasks.len() - i,
    {
        let mut id = "start-task:".to_owned();
        id.append(signed_text(tasks[i].task.id).as_str());
        let mut label = "Start ".to_owned();
        label.append(tray_label(tasks[i].task.name.as_str()).as_str());
        items.push(TrayItem { id, label });
        i += 1;
    }
    items
}

/// What an entry of the tray's menu asks for.
pub open spec fn tray_request(id: Seq<char>) -> TrayRequest {
    if id == "show"@ {
        TrayRequest::Show
    } else if id == "stop"@ {
        TrayRequest::Stop
    } else if id == "quit"@ {
        TrayRequest::Quit
    } else {
        match after_prefix(id, "start-task:"@) {
            Some(rest) => match i64_value(rest) {
                Some(task_id) => TrayRequest::StartTask(task_id),
                None => TrayRequest::Nothing,
            },
            None => TrayRequest::Nothing,
        }
    }
}

/// What an entry of the tray's menu asks for.
pub fn tray_menu_request(id: &str) -> (result: TrayRequest)
    ensures
        result == tray_request(id@),
{
    if same_text(id, "show") {
        return TrayRequest::Show;
    }
    if same_text(id, "stop") {
        return TrayRequest::Stop;
    }
    if same_text(id, "quit") {
        return TrayRequest::Quit;
    }
    match strip_prefix(id, "start-task:") {
        Some(rest) => match parse_i64(rest) {
            Some(task_id) => TrayRequest::StartTask(task_id),
            None => TrayRequest::Nothing,
        },
        None => TrayRequest::Nothing,
    }
}

/// Choosing the entry of a task asks to start that task.
pub proof fn menu_entries_start_their_task(task_id: i64)
    ensures
        tray_request(start_task_id(task_id as int)) == TrayRequest::StartTask(task_id),
{
    reveal_strlit("start-task:");
    reveal_strlit("show");
    reveal_strlit("stop");
    reveal_strlit("quit");
    let prefix = "start-task:"@;
    let id = start_task_id(task_id as int);
    assert(id.subrange(0, prefix.len() as int) == prefix);
    assert(id.skip(prefix.len() as int) == signed_decimal(task_id as int));
    written_numbers_read_back(task_id);
}

/// A label that is too long is cut to one character less than the limit, and three
/// dots follow; any other stays.
pub proof fn cut_labels_end_with_dots(s: Seq<char>, most: int)
    requires
        most > 0,
    ensures
        s.len() <= most ==> shortened(s, most) == s,
        s.len() > most ==> shortened(s, most).len() == most + 2 && shortened(s, most).take(most - 1)
            == s.take(most - 1) && shortened(s, most).skip(most - 1) == seq!['.', '.', '.'],
{
    reveal_strlit("...");
    if s.len() > most {
        let cut = shortened(s, most);
        assert(cut.take(most - 1) == s.take(most - 1));
        assert(cut.skip(most - 1) == seq!['.', '.', '.']);
    }
}

/// A time is shown as hours, minutes and seconds that add up to it, with fewer than
/// sixty minutes and seconds and at least two digits each; a negative one as none.
pub proof fn shown_times_add_up(seconds: int)
    ensures
        exists|h: nat, m: nat, s: nat|
            {
                &&& h * 3600 + m * 60 + s == (if seconds < 0 {
                    0
                } else {
                    seconds
                })
                &&& m < 60
                &&& s < 60
                &&& hours_minutes_seconds(seconds) == #[trigger] padded(h, 2) + seq![':']
                    + #[trigger] padded(m, 2) + seq![':'] + #[trigger] padded(s, 2)
            },
{
    reveal_strlit(":");
    assert(":"@ == seq![':']);
    let t = if seconds < 0 {
        0
    } else {
        seconds
    };
    let h = (t / 3600) as nat;
    let m = (t % 3600 / 60) as nat;
    let s = (t % 60) as nat;
    assert(h * 3600 + m * 60 + s == t);
    assert(hours_minutes_seconds(seconds) == padded(h, 2) + seq![':'] + padded(m, 2) + seq![':']
        + padded(s, 2));
}

/// The tray shows the task, its subtask after a slash where there is one, cut to 34
/// characters, and then a space and the time.
pub proof fn the_tray_shows_task_subtask_and_time(active: ActiveTimerModel)
    ensures
        ({
            let label = match active.subtask {
                Some(subtask) => active.task.name + seq![' ', '/', ' '] + subtask.name,
                None => active.task.name,
            };
            timer_label(active) == shortened(label, 34) + seq![' '] + hours_minutes_seconds(
                active.elapsed_seconds as int,
            )
        }),
{
    reveal_strlit(" / ");
    reveal_strlit(" ");
    assert(" / "@ == seq![' ', '/', ' ']);
    assert(" "@ == seq![' ']);
}

/// The menu asks to start a task only by an identifier that is a number after the
/// menu's word for starting; other words that it does not know ask for nothing.
pub proof fn the_menu_knows_its_words(id: Seq<char>)
    ensures
        tray_request("show"@) == TrayRequest::Show,
        tray_request("stop"@) == TrayRequest::Stop,
        tray_request("quit"@) == TrayRequest::Quit,
        tray_request(id) matches TrayRequest::StartTask(task_id) ==> exists|digits: Seq<char>|
            id == #[trigger] ("start-task:"@ + digits) && i64_value(digits) == Some(task_id),
        tray_request(id) is Show ==> id == "show"@,
        tray_request(id) is Stop ==> id == "stop"@,
        tray_request(id) is Quit ==> id == "quit"@,
{
    reveal_strlit("show");
    reveal_strlit("stop");
    reveal_strlit("quit");
    assert("show"@[1] != "stop"@[1]);
    assert("show"@[0] != "quit"@[0]);
    assert("stop"@[0] != "quit"@[0]);
    a_prefix_and_the_rest_are_the_text("start-task:"@, Seq::empty(), id);
}

} // verus!
