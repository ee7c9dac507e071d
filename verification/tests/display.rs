use timetrack::calc::display::to_hms;
use timetrack::calc::project_map::ProjectMap;

#[test]
fn to_hms_string_zero() {
    assert_eq!("None", to_hms(0));
}

#[test]
fn to_hms_second() {
    assert_eq!("1 second", to_hms(1));
}

#[test]
fn to_hms_seconds() {
    assert_eq!("30 seconds", to_hms(30));
}

#[test]
fn to_hms_minute() {
    assert_eq!("1 minute", to_hms(60));
}

#[test]
fn to_hms_minutes() {
    assert_eq!("5 minutes", to_hms(330));
}

#[test]
fn to_hms_hour_minute() {
    assert_eq!("1 hour 1 minute", to_hms((1 * 60 * 60) + (1 * 60) + 30));
}

#[test]
fn to_hms_hour() {
    assert_eq!("1 hour 10 minutes", to_hms((1 * 60 * 60) + (10 * 60) + 30));
}

#[test]
fn to_hms_hours_minute() {
    assert_eq!("5 hours 1 minute", to_hms((5 * 60 * 60) + (1 * 60) + 30));
}

#[test]
fn to_hms_hours() {
    assert_eq!("5 hours 10 minutes", to_hms((5 * 60 * 60) + (10 * 60) + 30));
}

#[test]
fn to_hms_whole_hour() {
    assert_eq!("1 hour 0 minutes", to_hms(3600));
}

#[test]
fn format_no_data() {
    let data = ProjectMap::new();
    assert_eq!("No time track data found", timetrack::display::format(&data));
}

#[test]
fn format_seconds() {
    let mut data = ProjectMap::new();
    data.insert("project1", 30);

    assert_eq!("project1 - 30 seconds", timetrack::display::format(&data));
}

#[test]
fn format_minutes() {
    let mut data = ProjectMap::new();
    data.insert("project1", 330);

    assert_eq!("project1 - 5 minutes 30 seconds", timetrack::display::format(&data));
}

#[test]
fn format_hours() {
    let mut data = ProjectMap::new();
    data.insert("project1", (5 * 60 * 60) + (10 * 60) + 30);

    assert_eq!("project1 - 5 hours 10 minutes", timetrack::display::format(&data));
}

#[test]
fn format_multiple_projects() {
    let mut data = ProjectMap::new();
    data.insert("project1", 30);
    data.insert("project2", 330);

    assert_eq!(
        "project1 - 30 seconds\nproject2 - 5 minutes 30 seconds",
        timetrack::display::format(&data)
    );
}

#[test]
fn format_alphabetizes_projects() {
    let mut data = ProjectMap::new();
    data.insert("zebra", 30);
    data.insert("alpha", 45);

    assert_eq!("alpha - 45 seconds\nzebra - 30 seconds", timetrack::display::format(&data));
}

#[test]
fn format_rows_skips_idle_projects_and_sorts() {
    let mut data = ProjectMap::new();
    data.insert("idle", 0);
    data.insert("second", 90);
    data.insert("first", 30);

    let rows = timetrack::calc::display::format(&data);

    assert_eq!(2, rows.len());
    assert_eq!(("first".to_string(), "30 seconds".to_string()), rows[0]);
    assert_eq!(("second".to_string(), "1 minute".to_string()), rows[1]);
}
