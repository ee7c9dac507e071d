use vstd::prelude::*;

pub mod calc;
pub mod config;
pub mod digits;
pub mod display;
pub mod error;
pub mod order;
pub mod schedule;
pub mod text;
pub mod track;

pub use error::TimeTrackerError;

verus! {

/// Entry point of the library: borrows a `Configuration` and exposes the
/// tracking and reporting operations as methods.
pub struct TimeTracker<'a> {
    pub config: &'a config::Configuration,
}

impl<'a> TimeTracker<'a> {
    pub fn new(config: &'a config::Configuration) -> (r: Self)
        ensures
            r.config == config,
    {
        TimeTracker { config }
    }
}

} // verus!
