use timetrack::calc::project_map::ProjectMap;
use timetrack::calc::span::{Span, get_spans_from};
use timetrack::calc::raw_log::{RawLog, raw_logs_from};
use timetrack::calc::{
    CalcUpdate, calculate_project_total_time, parse_raw_data, process_raw_data,
    try_calculate_project_total_time,
};

#[test]
fn calc_raw_logs_from_string() {
    let raw_data = "testproj1/123\ntestproj2/456\n";

    let raw_logs = raw_logs_from(raw_data);

    assert_eq!(2, raw_logs.unwrap().len())
}

#[test]
fn calc_raw_log_from_str() {
    let raw_data = "josh/123";
    assert_eq!(
        RawLog {
            name: String::from("josh"),
            timestamp: 123
        },
        RawLog::try_from(raw_data).unwrap()
    );
}

#[test]
fn calc_raw_log_to_span_no_logs() {
    let spans = get_spans_from(vec![]);
    assert_eq!(0, spans.len())
}

#[test]
fn calc_raw_log_to_span_single_project() {
    let project_name = "test_proj";
    let raw_log_1 = RawLog { name: String::from(project_name), timestamp: 0 };
    let raw_log_2 = RawLog { name: String::from(project_name), timestamp: 5 };
    let raw_log_3 = RawLog { name: String::from(project_name), timestamp: 20 };
    let raw_logs = vec![raw_log_1, raw_log_2, raw_log_3];

    let mut spans = get_spans_from(raw_logs);

    assert_eq!(1, spans.len());

    let span = spans.pop().unwrap();

    assert_eq!(project_name, span.name);
    assert_eq!(20, span.duration())
}

#[test]
fn calc_calculate_project_total_time_single_project() {
    let mut spans = vec![];
    let proj_1_name = "proj1";
    spans.push(Span { name: String::from("proj1"), start: 1, end: 5 });
    spans.push(Span { name: String::from("proj1"), start: 11, end: 26 });

    let project_totals = calculate_project_total_time(spans);

    assert!(project_totals.contains_key(proj_1_name));
    assert_eq!(19u64, project_totals.get(proj_1_name).unwrap());
}

#[test]
fn calc_calculate_project_total_time_two_projects() {
    let mut spans = vec![];
    let proj_1_name = "proj1";
    let proj_2_name = "proj2";
    spans.push(Span { name: String::from("proj1"), start: 1, end: 5 });
    spans.push(Span { name: String::from("proj2"), start: 7, end: 12 });
    spans.push(Span { name: String::from("proj1"), start: 11, end: 26 });

    let project_totals = calculate_project_total_time(spans);

    assert!(project_totals.contains_key(proj_1_name));
    assert_eq!(19u64, project_totals.get(proj_1_name).unwrap());
    assert!(project_totals.contains_key(proj_2_name));
    assert_eq!(5u64, project_totals.get(proj_2_name).unwrap());
}

#[test]
fn mod_calculate_project_total_time_single_project() {
    let mut spans = vec![];
    let proj_1_name = "proj1";
    spans.push(Span {
        name: String::from("proj1"),
        start: 1,
        end: 5,
    });
    spans.push(Span {
        name: String::from("proj1"),
        start: 11,
        end: 26,
    });

    let project_totals = calculate_project_total_time(spans);

    assert!(project_totals.contains_key(proj_1_name));
    assert_eq!(19u64, project_totals.get(proj_1_name).unwrap());
}

#[test]
fn mod_calculate_project_total_time_two_projects() {
    let mut spans = vec![];
    let proj_1_name = "proj1";
    let proj_2_name = "proj2";
    spans.push(Span {
        name: String::from("proj1"),
        start: 1,
        end: 5,
    });
    spans.push(Span {
        name: String::from("proj2"),
        start: 7,
        end: 12,
    });
    spans.push(Span {
        name: String::from("proj1"),
        start: 11,
        end: 26,
    });

    let project_totals = calculate_project_total_time(spans);

    assert!(project_totals.contains_key(proj_1_name));
    assert_eq!(19u64, project_totals.get(proj_1_name).unwrap());
    assert!(project_totals.contains_key(proj_2_name));
    assert_eq!(5u64, project_totals.get(proj_2_name).unwrap());
}

#[test]
fn aggregation_ignores_span_order() {
    let forward = vec![
        Span { name: String::from("a"), start: 0, end: 4 },
        Span { name: String::from("b"), start: 4, end: 9 },
        Span { name: String::from("a"), start: 20, end: 26 },
    ];
    let backward = vec![
        Span { name: String::from("a"), start: 20, end: 26 },
        Span { name: String::from("a"), start: 0, end: 4 },
        Span { name: String::from("b"), start: 4, end: 9 },
    ];

    let t1 = calculate_project_total_time(forward);
    let t2 = calculate_project_total_time(backward);

    assert_eq!(t1.get("a"), t2.get("a"));
    assert_eq!(t1.get("b"), t2.get("b"));
    assert_eq!(t1.len(), t2.len());
    assert_eq!(Some(10), t1.get("a"));
    assert_eq!(Some(5), t1.get("b"));
}

#[test]
fn try_calculate_rejects_inverted_spans() {
    let spans = vec![Span { name: String::from("a"), start: 10, end: 3 }];
    assert!(try_calculate_project_total_time(&spans).is_none());
}

#[test]
fn try_calculate_rejects_overflowing_totals() {
    let spans = vec![
        Span { name: String::from("a"), start: 0, end: u64::MAX },
        Span { name: String::from("a"), start: 0, end: 1 },
    ];
    assert!(try_calculate_project_total_time(&spans).is_none());
}

#[test]
fn empty_raw_data_yields_empty_totals() {
    let totals = parse_raw_data("").unwrap();
    assert!(totals.is_empty());
    assert_eq!(0, get_spans_from(vec![]).len());
}

#[test]
fn parse_raw_data_end_to_end() {
    let totals = parse_raw_data("A/0\nA/6\nB/18\nB/26\n").unwrap();
    assert_eq!(Some(12), totals.get("A"));
    assert_eq!(Some(14), totals.get("B"));
}

#[test]
fn parse_raw_data_rejects_malformed_input() {
    assert!(parse_raw_data("A/0\nbroken\n").is_err());
}

#[test]
fn process_raw_data_renders_both_files() {
    let CalcUpdate {
        new_spans,
        processed_appendix,
        compacted_raw,
    } = process_raw_data("A/0\nA/6\nB/18\nB/26\n").unwrap();

    assert_eq!(2, new_spans.len());
    assert_eq!("A/0/12\nB/12/26\n", processed_appendix);
    assert_eq!("A/12\nB/26\n", compacted_raw);
}

#[test]
fn project_map_insert_overwrites_equal_keys() {
    let mut map = ProjectMap::new();
    map.insert("p", 5);
    map.insert("p", 9);
    map.insert("q", 1);

    assert_eq!(2, map.len());
    assert_eq!(Some(9), map.get("p"));
    assert_eq!(Some(1), map.get("q"));
    assert_eq!(None, map.get("absent"));
    assert!(!map.contains_key("absent"));
}
