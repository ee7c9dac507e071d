use timetrack::TimeTrackerError;
use timetrack::calc::project_map::ProjectMap;
use timetrack::calc::raw_log::RawLog;
use timetrack::calc::span::{
    Span, get_last_timestamp_per_project, get_spans_from,
    get_vec_raw_logs_from_map_last_timestamp_per_project, spans_from,
};

#[test]
fn span_raw_log_to_span_no_logs() {
    let spans = get_spans_from(vec![]);
    assert_eq!(0, spans.len())
}

#[test]
fn span_raw_log_to_span_single_project() {
    let project_name = "test_proj";
    let raw_log_1 = RawLog {
        name: String::from(project_name),
        timestamp: 0,
    };
    let raw_log_2 = RawLog {
        name: String::from(project_name),
        timestamp: 5,
    };
    let raw_log_3 = RawLog {
        name: String::from(project_name),
        timestamp: 20,
    };
    let raw_logs = vec![raw_log_1, raw_log_2, raw_log_3];

    let mut spans = get_spans_from(raw_logs);

    assert_eq!(1, spans.len());

    let span = spans.pop().unwrap();

    assert_eq!(project_name, span.name);
    assert_eq!(20, span.duration())
}

#[test]
fn span_raw_log_to_span_two_project() {
    let project_name = "test_proj";
    let project_2_name = "test_proj2";
    let raw_log_1 = RawLog {
        name: String::from(project_name),
        timestamp: 0,
    };
    let raw_log_2 = RawLog {
        name: String::from(project_name),
        timestamp: 6,
    };
    let raw_log_3 = RawLog {
        name: String::from(project_2_name),
        timestamp: 18,
    };
    let raw_log_4 = RawLog {
        name: String::from(project_2_name),
        timestamp: 26,
    };
    let raw_logs = vec![raw_log_1, raw_log_2, raw_log_3, raw_log_4];

    let mut spans = get_spans_from(raw_logs);

    assert_eq!(2, spans.len());

    let span_1 = spans.remove(0);
    assert_eq!(project_name, span_1.name);
    assert_eq!(6 + 6, span_1.duration()); // time between project timestamps is split equally between projects

    let span_2 = spans.remove(0);
    assert_eq!(project_2_name, span_2.name);
    assert_eq!(8 + 6, span_2.duration());
}

#[test]
fn raw_log_to_span_two_projects_interleaved() {
    let project_1_name = "test_proj";
    let project_2_name = "test_proj2";
    let raw_log_1 = RawLog {
        name: String::from(project_1_name),
        timestamp: 0,
    };
    let raw_log_2 = RawLog {
        name: String::from(project_1_name),
        timestamp: 5,
    };
    let raw_log_3 = RawLog {
        name: String::from(project_2_name),
        timestamp: 20,
    };
    let raw_log_4 = RawLog {
        name: String::from(project_2_name),
        timestamp: 24,
    };
    let raw_log_5 = RawLog {
        name: String::from(project_1_name),
        timestamp: 30,
    };
    let raw_log_6 = RawLog {
        name: String::from(project_1_name),
        timestamp: 36,
    };
    let raw_logs = vec![
        raw_log_1, raw_log_2, raw_log_3, raw_log_4, raw_log_5, raw_log_6,
    ];

    let mut spans = get_spans_from(raw_logs);

    assert_eq!(3, spans.len());

    let span_1 = spans.remove(0);
    assert_eq!(project_1_name, span_1.name);
    assert_eq!(12, span_1.duration());

    let span_2 = spans.remove(0);
    assert_eq!(project_2_name, span_2.name);
    assert_eq!(15, span_2.duration());

    let span_3 = spans.remove(0);
    assert_eq!(project_1_name, span_3.name);
    assert_eq!(9, span_3.duration());

    assert_eq!(
        36,
        span_1.duration() + span_2.duration() + span_3.duration()
    );
}

#[test]
fn raw_log_to_span_large_timegap() {
    let project_name = "test_proj";
    let raw_log_1 = RawLog {
        name: String::from(project_name),
        timestamp: 0,
    };
    let raw_log_2 = RawLog {
        name: String::from(project_name),
        timestamp: 5,
    };
    let raw_log_3 = RawLog {
        name: String::from(project_name),
        timestamp: 555520,
    };
    let raw_log_4 = RawLog {
        name: String::from(project_name),
        timestamp: 555526,
    };
    let raw_logs = vec![raw_log_1, raw_log_2, raw_log_3, raw_log_4];

    let mut spans = get_spans_from(raw_logs);

    assert_eq!(2, spans.len());

    let span_1 = spans.remove(0);
    assert_eq!(project_name, span_1.name);
    assert_eq!(5, span_1.duration());

    let span_2 = spans.remove(0);
    assert_eq!(project_name, span_2.name);
    assert_eq!(6, span_2.duration());
}

#[test]
fn raw_log_to_span_large_timegap_across_projects() {
    // a gap at or above the threshold is never split at the midpoint,
    // even when the projects differ
    let raw_logs = vec![
        RawLog { name: String::from("A"), timestamp: 0 },
        RawLog { name: String::from("A"), timestamp: 5 },
        RawLog { name: String::from("B"), timestamp: 555520 },
        RawLog { name: String::from("B"), timestamp: 555526 },
    ];

    let mut spans = get_spans_from(raw_logs);

    assert_eq!(2, spans.len());

    let span_1 = spans.remove(0);
    assert_eq!("A", span_1.name);
    assert_eq!(0, span_1.start);
    assert_eq!(5, span_1.end);
    assert_eq!(5, span_1.duration());

    let span_2 = spans.remove(0);
    assert_eq!("B", span_2.name);
    assert_eq!(555520, span_2.start);
    assert_eq!(6, span_2.duration());
}

#[test]
fn get_last_timestamp_per_project_no_spans() {
    let spans = vec![];
    let last_timestamp_per_project = get_last_timestamp_per_project(&spans);

    assert!(last_timestamp_per_project.is_empty());
}

#[test]
fn get_last_timestamp_per_project_several_spans() {
    let mut spans = vec![];
    let span1a = Span {
        name: String::from("testproj1"),
        start: 0,
        end: 30,
    };
    let span1b = Span {
        name: String::from("testproj1"),
        start: 10030,
        end: 10060,
    };
    let span2a = Span {
        name: String::from("testproj2"),
        start: 530,
        end: 560,
    };

    spans.push(span1a);
    spans.push(span1b);
    spans.push(span2a);

    let last_timestamp_per_project = get_last_timestamp_per_project(&spans);

    assert_eq!(
        10060u64,
        last_timestamp_per_project
            .get("testproj1")
            .expect("testproj1 not found")
    );
}

#[test]
fn get_last_timestamp_per_project_keeps_both_projects() {
    let spans = vec![
        Span { name: String::from("P1"), start: 0, end: 30 },
        Span { name: String::from("P1"), start: 10030, end: 10060 },
        Span { name: String::from("P2"), start: 530, end: 560 },
    ];

    let last = get_last_timestamp_per_project(&spans);

    assert_eq!(2, last.len());
    assert_eq!(Some(10060), last.get("P1"));
    assert_eq!(Some(560), last.get("P2"));
}

#[test]
fn get_vec_raw_logs_from_map_last_timestamp_per_project_empty() {
    let last_timestamp_per_project = ProjectMap::new();

    assert_eq!(
        0,
        get_vec_raw_logs_from_map_last_timestamp_per_project(last_timestamp_per_project).len()
    );
}

#[test]
fn get_vec_raw_logs_from_map_last_timestamp_per_project_several_projects() {
    let mut last_timestamp_per_project = ProjectMap::new();
    last_timestamp_per_project.insert("proj1", 1);
    last_timestamp_per_project.insert("proj2", 2);
    last_timestamp_per_project.insert("proj3", 3);

    let last_timestamp_as_vec =
        get_vec_raw_logs_from_map_last_timestamp_per_project(last_timestamp_per_project);

    assert_eq!(3, last_timestamp_as_vec.len());
    assert_eq!(1, last_timestamp_as_vec.get(0).unwrap().timestamp);
}

#[test]
fn checkpoint_records_sort_ascending_by_timestamp() {
    let mut map = ProjectMap::new();
    map.insert("late", 900);
    map.insert("early", 3);
    map.insert("middle", 40);

    let logs = get_vec_raw_logs_from_map_last_timestamp_per_project(map);

    let stamps: Vec<u64> = logs.iter().map(|l| l.timestamp).collect();
    assert_eq!(vec![3, 40, 900], stamps);
    assert_eq!("early", logs[0].name);
    assert_eq!("middle", logs[1].name);
    assert_eq!("late", logs[2].name);
}

#[test]
fn span_line_codec_round_trips() {
    let span = Span {
        name: String::from("proj"),
        start: 17,
        end: 230,
    };
    let line = span.encode();
    assert_eq!("proj/17/230", line);
    let back = Span::try_from(line.as_str()).unwrap();
    assert_eq!(span, back);
}

#[test]
fn span_line_errors() {
    assert!(matches!(
        Span::try_from("nosep"),
        Err(TimeTrackerError::InvalidLineError(_))
    ));
    assert!(matches!(
        Span::try_from("proj/12"),
        Err(TimeTrackerError::InvalidLineError(_))
    ));
    assert!(matches!(
        Span::try_from("proj/12/x"),
        Err(TimeTrackerError::InvalidTimestampError(_))
    ));
}

#[test]
fn spans_from_reads_every_line() {
    let text = "a/0/5\nb/10/20\n";
    let spans = spans_from(text).unwrap();
    assert_eq!(2, spans.len());
    assert_eq!("a", spans[0].name);
    assert_eq!(5, spans[0].duration());
    assert_eq!("b", spans[1].name);
    assert_eq!(10, spans[1].duration());
}

#[test]
fn single_raw_log_yields_one_zero_duration_span() {
    let spans = get_spans_from(vec![RawLog {
        name: String::from("solo"),
        timestamp: 777,
    }]);

    assert_eq!(1, spans.len());
    assert_eq!("solo", spans[0].name);
    assert_eq!(777, spans[0].start);
    assert_eq!(777, spans[0].end);
    assert_eq!(0, spans[0].duration());
}
