//! How the index database was found when it was opened.
use vstd::prelude::*;
use crate::strings::{chars_eq, push_signed, push_str, signed_decimal, str_to_string, to_chars};

verus! {

#[derive(Debug, Clone, Copy, PartialEq, Eq, Structural)]
pub enum OpenOutcome {
    /// Opened an existing, usable index.
    Reused,
    /// No index file existed.
    Created,
    /// The file was from an older or newer build of the app.
    RebuiltForSchemaChange,
    /// The file was corrupt or not a database at all.
    RebuiltAfterCorruption,
}

impl OpenOutcome {
    /// Anything but a reused index starts empty and must be filled by a
    /// full scan.
    pub fn needs_full_scan(self) -> (r: bool)
        ensures
            r == !(self is Reused),
    {
        !matches!(self, OpenOutcome::Reused)
    }
}

/// The index layout this build reads and writes.
pub const SCHEMA_VERSION: i64 = 1;

/// Why an index file could not be used, and so what rebuilding it means.
#[derive(Debug)]
pub struct OpenFailure {
    pub message: String,
    pub outcome: OpenOutcome,
}

/// The files an index is made of, which a rebuild removes: the database
/// and SQLite's write-ahead log and shared memory beside it.
pub fn index_files(path: &str) -> (r: Vec<String>)
    ensures
        r@.len() == 3,
        r@[0]@ == path@,
        r@[1]@ == path@ + "-wal"@,
        r@[2]@ == path@ + "-shm"@,
{
    let mut wal = str_to_string(path);
    push_str(&mut wal, "-wal");
    let mut shm = str_to_string(path);
    push_str(&mut shm, "-shm");
    vec![str_to_string(path), wal, shm]
}

/// The outcome of opening an index on the first try: reused when the file
/// was there already, created otherwise.
pub fn first_open_outcome(existed: bool) -> (r: OpenOutcome)
    ensures
        r == (if existed { OpenOutcome::Reused } else { OpenOutcome::Created }),
{
    if existed {
        OpenOutcome::Reused
    } else {
        OpenOutcome::Created
    }
}

pub open spec fn schema_message(version: i64) -> Seq<char> {
    "index schema is version "@ + signed_decimal(version as int) + ", this build expects 1"@
}

/// Judge an index file from SQLite's `quick_check` answer and the schema
/// version it records, if any. Anything but `ok` means corruption; a
/// recorded version other than this build's means a schema change. Either
/// way the index is rebuilt from the vault, which holds the truth.
pub fn judge_index(check: &str, stored_version: Option<i64>) -> (r: Result<(), OpenFailure>)
    ensures
        check@ != "ok"@ ==> (r matches Err(f) && f.message@ == check@ && f.outcome
            == OpenOutcome::RebuiltAfterCorruption),
        check@ == "ok"@ ==> match stored_version {
            Some(v) => if v != SCHEMA_VERSION {
                r matches Err(f) && f.message@ == schema_message(v) && f.outcome == OpenOutcome::RebuiltForSchemaChange
            } else {
                r is Ok
            },
            None => r is Ok,
        },
{
    if !chars_eq(&to_chars(check), &to_chars("ok")) {
        return Err(OpenFailure { message: str_to_string(check), outcome: OpenOutcome::RebuiltAfterCorruption });
    }
    match stored_version {
        Some(v) => {
            if v != SCHEMA_VERSION {
                let mut message = str_to_string("index schema is version ");
                push_signed(&mut message, v);
                push_str(&mut message, ", this build expects 1");
                Err(OpenFailure { message, outcome: OpenOutcome::RebuiltForSchemaChange })
            } else {
                Ok(())
            }
        },
        None => Ok(()),
    }
}

} // verus!
