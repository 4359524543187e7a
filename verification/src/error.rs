//! What can go wrong, and how it is told.

use vstd::prelude::*;
use vstd::string::StringExecFns;
use crate::number::{signed_decimal, signed_text};

verus! {

/// Why a text is no date and time.
#[derive(Debug, Clone, Copy, PartialEq, Eq, Structural)]
pub enum TimeFault {
    OutOfRange,
    Impossible,
    NotEnough,
    Invalid,
    TooShort,
    TooLong,
    BadFormat,
}

/// Why the database refused a request.
#[derive(Debug)]
pub enum DatabaseFault {
    /// The row that was asked for does not exist.
    NoRows,
    /// Every identifier of a table has been given out.
    Full,
    /// Any other fault, in the database's own words.
    Other(String),
}

/// Everything that can keep a request from being served.
#[derive(Debug)]
pub enum TrackerError {
    Database(DatabaseFault),
    Time(TimeFault),
    /// A task was named by blank text.
    MissingTaskName,
    /// A subtask was named by blank text.
    MissingSubtaskName,
    MissingDataDir,
    /// A fault of the window system, in its own words.
    Tauri(String),
    /// A fault of a web request, in its own words.
    Http(String),
    /// A fault of the credential store, in its own words.
    Keychain(String),
    /// A fault of the file system, in its own words.
    Io(String),
    /// The database was written by a newer version.
    SchemaTooNew { found: i64, supported: i64 },
    /// There is no way to bring the database to this version.
    MissingMigration(i64),
    /// A migration would have left this many references without a target.
    MigrationIntegrity(i64),
    /// The database was not opened, for this reason.
    DatabaseUnavailable(String),
    /// The time recorded in a report exceeds what a report can hold.
    TotalOutOfRange,
}

impl TimeFault {
    /// The fault in words.
    pub open spec fn text(self) -> Seq<char> {
        match self {
            TimeFault::OutOfRange => "input is out of range"@,
            TimeFault::Impossible => "no possible date and time matching input"@,
            TimeFault::NotEnough => "input is not enough for unique date and time"@,
            TimeFault::Invalid => "input contains invalid characters"@,
            TimeFault::TooShort => "premature end of input"@,
            TimeFault::TooLong => "trailing input"@,
            TimeFault::BadFormat => "bad or unsupported format string"@,
        }
    }

    /// The fault in words.
    pub fn message(&self) -> (result: String)
        ensures
            result@ == self.text(),
    {
        match self {
            TimeFault::OutOfRange => "input is out of range".to_owned(),
            TimeFault::Impossible => "no possible date and time matching input".to_owned(),
            TimeFault::NotEnough => "input is not enough for unique date and time".to_owned(),
            TimeFault::Invalid => "input contains invalid characters".to_owned(),
            TimeFault::TooShort => "premature end of input".to_owned(),
            TimeFault::TooLong => "trailing input".to_owned(),
            TimeFault::BadFormat => "bad or unsupported format string".to_owned(),
        }
    }
}

impl DatabaseFault {
    /// The fault in words.
    pub open spec fn text(self) -> Seq<char> {
        match self {
            DatabaseFault::NoRows => "Query returned no rows"@,
            DatabaseFault::Full => "database or disk is full"@,
            DatabaseFault::Other(words) => words@,
        }
    }

    /// The fault in words.
    pub fn message(&self) -> (result: String)
        ensures
            result@ == self.text(),
    {
        match self {
            DatabaseFault::NoRows => "Query returned no rows".to_owned(),
            DatabaseFault::Full => "database or disk is full".to_owned(),
            DatabaseFault::Other(words) => words.clone(),
        }
    }
}

impl TrackerError {
    /// The error in words.
    pub open spec fn text(self) -> Seq<char> {
        match self {
            TrackerError::Database(fault) => "database error: "@ + fault.text(),
            TrackerError::Time(fault) => "time parse error: "@ + fault.text(),
            TrackerError::MissingTaskName => "task name is required"@,
            TrackerError::MissingSubtaskName => "subtask name is required"@,
            TrackerError::MissingDataDir => "application data directory is not available"@,
            TrackerError::Tauri(words) => "tauri error: "@ + words@,
            TrackerError::Http(words) => "github request failed: "@ + words@,
            TrackerError::Keychain(words) => "keychain error: "@ + words@,
            TrackerError::Io(words) => "file error: "@ + words@,
            TrackerError::SchemaTooNew { found, supported } => "this database uses schema version "@
                + signed_decimal(found as int)
                + ", but this version of Tracker only supports version "@ + signed_decimal(
                supported as int,
            ) + ". Update Tracker to open it."@,
            TrackerError::MissingMigration(version) => {
                "no migration is defined for schema version "@ + signed_decimal(version as int)
            },
            TrackerError::MigrationIntegrity(count) => "the migration would have left "@
                + signed_decimal(count as int) + " time entries pointing at missing rows"@,
            TrackerError::DatabaseUnavailable(words) => "the database could not be opened: "@
                + words@,
            TrackerError::TotalOutOfRange => "the recorded time is out of range"@,
        }
    }

    /// The error in words.
    pub fn message(&self) -> (result: String)
        ensures
            result@ == self.text(),
    {
        match self {
            TrackerError::Database(fault) => prefixed("database error: ", fault.message().as_str()),
            TrackerError::Time(fault) => prefixed("time parse error: ", fault.message().as_str()),
            TrackerError::MissingTaskName => "task name is required".to_owned(),
            TrackerError::MissingSubtaskName => "subtask name is required".to_owned(),
            TrackerError::MissingDataDir => {
                "application data directory is not available".to_owned()
            },
            TrackerError::Tauri(words) => prefixed("tauri error: ", words.as_str()),
            TrackerError::Http(words) => prefixed("github request failed: ", words.as_str()),
            TrackerError::Keychain(words) => prefixed("keychain error: ", words.as_str()),
            TrackerError::Io(words) => prefixed("file error: ", words.as_str()),
            TrackerError::SchemaTooNew { found, supported } => {
                let mut out = prefixed(
                    "this database uses schema version ",
                    signed_text(*found).as_str(),
                );
                out.append(", but this version of Tracker only supports version ");
                out.append(signed_text(*supported).as_str());
                out.append(". Update Tracker to open it.");
                out
            },
            TrackerError::MissingMigration(version) => prefixed(
                "no migration is defined for schema version ",
                signed_text(*version).as_str(),
            ),
            TrackerError::MigrationIntegrity(count) => {
                let mut out = prefixed(
                    "the migration would have left ",
                    signed_text(*count).as_str(),
                );
                out.append(" time entries pointing at missing rows");
                out
            },
            TrackerError::DatabaseUnavailable(words) => prefixed(
                "the database could not be opened: ",
                words.as_str(),
            ),
            TrackerError::TotalOutOfRange => "the recorded time is out of range".to_owned(),
        }
    }
}

/// One text followed by another.
fn prefixed(first: &str, second: &str) -> (result: String)
    ensures
        result@ == first@ + second@,
{
    let mut out = first.to_owned();
    out.append(second);
    out
}

/// Every fault of a time is told in words of its own.
pub proof fn faults_are_told_in_words(fault: TimeFault)
    ensures
        fault.text() == match fault {
            TimeFault::OutOfRange => "input is out of range"@,
            TimeFault::Impossible => "no possible date and time matching input"@,
            TimeFault::NotEnough => "input is not enough for unique date and time"@,
            TimeFault::Invalid => "input contains invalid characters"@,
            TimeFault::TooShort => "premature end of input"@,
            TimeFault::TooLong => "trailing input"@,
            TimeFault::BadFormat => "bad or unsupported format string"@,
        },
{
}

/// What another part of the system says of a fault is told as it says it, after words
/// for where it came from; numbers are told in decimal.
pub proof fn faults_of_others_are_told_as_they_are(words: String, n: i64, m: i64)
    ensures
        TrackerError::Database(DatabaseFault::Other(words)).text() == "database error: "@ + words@,
        TrackerError::Tauri(words).text() == "tauri error: "@ + words@,
        TrackerError::Http(words).text() == "github request failed: "@ + words@,
        TrackerError::Keychain(words).text() == "keychain error: "@ + words@,
        TrackerError::Io(words).text() == "file error: "@ + words@,
        TrackerError::DatabaseUnavailable(words).text() == "the database could not be opened: "@
            + words@,
        TrackerError::MissingMigration(n).text() == "no migration is defined for schema version "@
            + signed_decimal(n as int),
        TrackerError::MigrationIntegrity(n).text() == "the migration would have left "@
            + signed_decimal(n as int) + " time entries pointing at missing rows"@,
        (TrackerError::SchemaTooNew { found: n, supported: m }).text()
            == "this database uses schema version "@ + signed_decimal(n as int)
            + ", but this version of Tracker only supports version "@ + signed_decimal(m as int)
            + ". Update Tracker to open it."@,
{
}

} // verus!
