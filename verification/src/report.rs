//! What a report shows.

use vstd::prelude::*;

verus! {

/// What a report is to show.
#[derive(Clone, Copy, Debug, PartialEq, Eq, Structural)]
pub struct ShowOptions {
    /// List the days of each period.
    pub days: bool,
    /// Show the time worked.
    pub worked: bool,
    /// Show the breaks credited.
    pub breaks: bool,
    /// Say what was assumed.
    pub verbose: bool,
    /// List the parts of each day.
    pub parts: bool,
}

impl ShowOptions {
    /// The options as asked for, but that the time worked is shown wherever
    /// the breaks were not asked for: a report shows one of the two at least.
    pub fn new(days: bool, worked: bool, breaks: bool, verbose: bool, parts: bool) -> (r:
        ShowOptions)
        ensures
            r == (ShowOptions { days, worked: worked || !breaks, breaks, verbose, parts }),
    {
        ShowOptions { days, worked: worked || !breaks, breaks, verbose, parts }
    }
}

} // verus!
