//! A time tracker's rules: tasks, subtasks shared between tasks, timed entries,
//! reports over them, and the migration of older data.

pub mod calendar;
pub mod changes;
pub mod clock;
pub mod entries;
pub mod error;
pub mod github;
pub mod listing_laws;
pub mod lists;
pub mod migration;
pub mod names;
pub mod number;
pub mod records;
pub mod report_laws;
pub mod reports;
pub mod request_laws;
pub mod schema;
pub mod store;
pub mod subtask_laws;
pub mod subtasks;
pub mod summaries;
pub mod tasks;
pub mod text;
pub mod timer_laws;
pub mod timers;
pub mod tray;
pub mod written_time;
