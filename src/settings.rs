//! Run configuration.
use vstd::prelude::*;

verus! {

/// How long to run, how many robots and requests, and where to write the
/// run's record.
pub struct Settings {
    pub total_time: usize,
    pub nr_robots: usize,
    pub nr_requests: u64,
    pub output_file: Option<String>,
}

impl Default for Settings {
    fn default() -> (r: Settings)
        ensures
            r.total_time == 15,
            r.nr_robots == 2,
            r.nr_requests == 4,
            r.output_file is None,
    {
        Settings { total_time: 15, nr_robots: 2, nr_requests: 4, output_file: None }
    }
}

} // verus!
