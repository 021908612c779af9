//! What the history source hands over, and where it looks for it.
use vstd::prelude::*;
use vstd::string::*;
use crate::domain::domain_key;

verus! {

/// One row of the history source: visits to `url` during local hour `hour`.
pub struct VisitRecord {
    pub url: String,
    pub count: u32,
    pub hour: usize,
}

/// A record as the tracker counts it: its domain key, count and hour.
pub struct Visit {
    pub key: Seq<char>,
    pub count: nat,
    pub hour: nat,
}

impl View for VisitRecord {
    type V = Visit;

    open spec fn view(&self) -> Visit {
        Visit { key: domain_key(self.url@), count: self.count as nat, hour: self.hour as nat }
    }
}

/// Where the Safari history store lives and where a readable copy of it goes.
pub struct SafariProvider {
    /// Path of the history database, relative to the home directory.
    pub db_path: String,
    /// Path the database is copied to before it is opened.
    pub temp_db: String,
}

impl SafariProvider {
    /// The usual locations: `Library/Safari/History.db` under the home
    /// directory, copied to `/tmp/safari_history_copy`.
    pub fn new() -> (r: SafariProvider)
        ensures
            r.db_path@ == "Library/Safari/History.db"@,
            r.temp_db@ == "/tmp/safari_history_copy"@,
    {
        SafariProvider {
            db_path: String::from_str("Library/Safari/History.db"),
            temp_db: String::from_str("/tmp/safari_history_copy"),
        }
    }
}

/// Length in seconds of a trailing window of `days` whole days.
pub fn window_seconds(days: u32) -> (r: u64)
    ensures
        r == days as nat * 86400,
{
    days as u64 * 86400
}

} // verus!
