use timetrack::TimeTrackerError;
use timetrack::calc::raw_log::{RawLog, raw_logs_from};

#[test]
fn raw_log_raw_logs_from_string() {
    let raw_data = "testproj1/123\ntestproj2/456\n";

    let raw_logs = raw_logs_from(raw_data);

    assert_eq!(2, raw_logs.unwrap().len());
}

#[test]
fn raw_log_raw_log_from_str() {
    let raw_data = "josh/123";
    assert_eq!(
        RawLog {
            name: String::from("josh"),
            timestamp: 123u64
        },
        RawLog::try_from(raw_data).unwrap()
    );
}

#[test]
fn raw_log_display() {
    let raw_log = RawLog {
        name: String::from("testproj1"),
        timestamp: 123,
    };

    assert_eq!("testproj1/123", raw_log.encode());
}

#[test]
fn raw_log_missing_separator_is_invalid_line() {
    match RawLog::try_from("noseparator") {
        Err(TimeTrackerError::InvalidLineError(line)) => assert_eq!("noseparator", line),
        _ => panic!("expected an invalid-line error"),
    }
}

#[test]
fn raw_log_bad_timestamp_is_invalid_timestamp() {
    match RawLog::try_from("proj/12x4") {
        Err(TimeTrackerError::InvalidTimestampError(field)) => assert_eq!("12x4", field),
        _ => panic!("expected an invalid-timestamp error"),
    }
}

#[test]
fn raw_log_empty_timestamp_is_invalid_timestamp() {
    match RawLog::try_from("proj/") {
        Err(TimeTrackerError::InvalidTimestampError(field)) => assert_eq!("", field),
        _ => panic!("expected an invalid-timestamp error"),
    }
}

#[test]
fn raw_log_extra_separator_is_invalid_timestamp() {
    match RawLog::try_from("proj/12/34") {
        Err(TimeTrackerError::InvalidTimestampError(field)) => assert_eq!("12/34", field),
        _ => panic!("expected an invalid-timestamp error"),
    }
}

#[test]
fn raw_log_overflowing_timestamp_is_invalid_timestamp() {
    // one past u64::MAX
    match RawLog::try_from("proj/18446744073709551616") {
        Err(TimeTrackerError::InvalidTimestampError(field)) => {
            assert_eq!("18446744073709551616", field)
        }
        _ => panic!("expected an invalid-timestamp error"),
    }
    assert_eq!(
        u64::MAX,
        RawLog::try_from("proj/18446744073709551615")
            .unwrap()
            .timestamp
    );
}

#[test]
fn raw_log_round_trips_through_encode() {
    let log = RawLog {
        name: String::from("deep project"),
        timestamp: 998877,
    };
    let line = log.encode();
    assert_eq!(log, RawLog::try_from(line.as_str()).unwrap());
}

#[test]
fn raw_log_line_round_trips_through_decode() {
    let line = "some-project/424242";
    let decoded = RawLog::try_from(line).unwrap();
    assert_eq!(line, decoded.encode());
}

#[test]
fn raw_logs_from_stops_at_first_bad_line() {
    let raw_data = "good/1\nbad\ngood/2\n";
    match raw_logs_from(raw_data) {
        Err(TimeTrackerError::InvalidLineError(line)) => assert_eq!("bad", line),
        _ => panic!("expected decoding to stop at the malformed line"),
    }
}

#[test]
fn error_description_and_message() {
    let err = TimeTrackerError::InvalidTimestampError(String::from("oops"));
    assert_eq!("could not parse line", err.description());
    assert_eq!("could not parse line: could not parse line: oops", err.message());
}

#[test]
fn parse_u64_bounds() {
    assert_eq!(Some(0), timetrack::digits::parse_u64("0"));
    assert_eq!(Some(7), timetrack::digits::parse_u64("007"));
    assert_eq!(Some(u64::MAX), timetrack::digits::parse_u64("18446744073709551615"));
    assert_eq!(None, timetrack::digits::parse_u64("18446744073709551616"));
    assert_eq!(None, timetrack::digits::parse_u64(""));
    assert_eq!(None, timetrack::digits::parse_u64("+12"));
    assert_eq!(None, timetrack::digits::parse_u64("1 2"));
}

#[test]
fn raw_log_largest_timestamp_round_trips() {
    let log = RawLog {
        name: String::from("edge"),
        timestamp: u64::MAX,
    };
    let line = log.encode();
    assert_eq!("edge/18446744073709551615", line);
    assert_eq!(log, RawLog::try_from(line.as_str()).unwrap());
}
