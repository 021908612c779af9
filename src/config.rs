//! Run settings chosen on the command line.
use vstd::prelude::*;
use vstd::string::*;

verus! {

/// How many domains to show, over how many trailing days, which domains to
/// keep, and where the HTML report goes.
pub struct Config {
    pub limit: usize,
    pub days: u32,
    pub filter: Option<String>,
    pub output: String,
}

impl Config {
    /// The defaults: fifteen domains over the last seven days, no filter,
    /// report written to `report.html`.
    pub fn new() -> (r: Config)
        ensures
            r.limit == 15,
            r.days == 7,
            r.filter is None,
            r.output@ == "report.html"@,
    {
        Config { limit: 15, days: 7, filter: None, output: String::from_str("report.html") }
    }
}

} // verus!
