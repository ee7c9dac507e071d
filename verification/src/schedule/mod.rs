use vstd::prelude::*;

use crate::TimeTracker;

verus! {

impl<'a> TimeTracker<'a> {
    /// Login-time scheduling is configured through an OS launch agent,
    /// which this build does not manage; the message says so, and the
    /// caller prints it.
    pub fn schedule(&self) -> (r: String)
        ensures
            r@ == "Schedule configuration is not supported on your operating system"@,
    {
        String::from_str("Schedule configuration is not supported on your operating system")
    }

    /// The counterpart of `schedule`, equally unsupported here.
    pub fn unschedule(&self) -> (r: String)
        ensures
            r@ == "Schedule configuration is not supported on your operating system"@,
    {
        String::from_str("Schedule configuration is not supported on your operating system")
    }
}

} // verus!
