use vstd::prelude::*;

verus! {

/// Errors raised while decoding persisted activity records. A malformed
/// line halts decoding of the whole file: a corrupted log cannot be
/// partially trusted.
#[derive(Debug)]
pub enum TimeTrackerError {
    /// The line had no separator splitting it into a project and a timestamp.
    InvalidLineError(String),
    /// The timestamp field was not a valid non-negative integer.
    InvalidTimestampError(String),
}

/// The text that `message` produces for an error carrying `detail`.
pub open spec fn error_message(detail: Seq<char>) -> Seq<char> {
    "could not parse line: "@ + "could not parse line: "@ + detail
}

impl TimeTrackerError {
    /// Short classification of the error.
    pub fn description(&self) -> (r: String)
        ensures
            r@ == "could not parse line"@,
    {
        match self {
            TimeTrackerError::InvalidLineError(..) => String::from_str("could not parse line"),
            TimeTrackerError::InvalidTimestampError(..) => String::from_str("could not parse line"),
        }
    }

    /// Full human-readable text of the error, with the offending field.
    pub fn message(&self) -> (r: String)
        ensures
            match self {
                TimeTrackerError::InvalidLineError(v) => r@ == error_message(v@),
                TimeTrackerError::InvalidTimestampError(v) => r@ == error_message(v@),
            },
    {
        let detail = match self {
            TimeTrackerError::InvalidLineError(v) => v,
            TimeTrackerError::InvalidTimestampError(v) => v,
        };
        let r = String::from_str("could not parse line: ")
            .concat("could not parse line: ")
            .concat(detail.as_str());
        proof {
            assert(r@ == error_message(detail@));
        }
        r
    }
}

} // verus!
