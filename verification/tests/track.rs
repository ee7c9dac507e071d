use timetrack::TimeTracker;
use timetrack::config::Configuration;
use timetrack::track::debounce::{
    DebounceAction, DebouncePhase, Debouncer, WatchEvent, get_path_from_event,
};
use timetrack::track::git::output_indicates_not_ignored;
use timetrack::track::project_dir;

fn get_mock_config() -> Configuration {
    Configuration::new_mock_config(
        vec![
            String::from("/Users/josh/Projects"),
            String::from("/Users/josh/OtherProjects"),
        ],
        String::from("/Users/josh/.timetrack_raw"),
        String::from("/Users/josh/.timetrack_processed"),
    )
}

#[test]
fn extract_project_name_some() {
    let config = get_mock_config();
    let event_path = format!("{}/{}", config.track_paths.get(0).unwrap(), "testProj/file1.rs");

    let tracker = TimeTracker::new(&config);

    assert_eq!(
        Some("testProj".to_string()),
        tracker.extract_project_name(&event_path)
    );
}

#[test]
fn extract_project_name_multiple_paths() {
    let config = get_mock_config();
    let event_path = format!(
        "{}/{}",
        config.track_paths.get(1).unwrap(),
        "testOtherProj/file1.rs"
    );

    let tracker = TimeTracker::new(&config);

    assert_eq!(
        Some("testOtherProj".to_string()),
        tracker.extract_project_name(&event_path)
    );
}

#[test]
fn extract_project_name_none() {
    let config = get_mock_config();
    let event_path = config.raw_data_path.clone();

    let tracker = TimeTracker::new(&config);

    assert_eq!(None, tracker.extract_project_name(&event_path));
}

#[test]
fn path_of_interest_per_event_kind() {
    let p = || String::from("/r/proj/f");
    assert_eq!(Some(p()), get_path_from_event(&WatchEvent::Create(p())));
    assert_eq!(Some(p()), get_path_from_event(&WatchEvent::Write(p())));
    assert_eq!(Some(p()), get_path_from_event(&WatchEvent::Chmod(p())));
    assert_eq!(Some(p()), get_path_from_event(&WatchEvent::Remove(p())));
    assert_eq!(
        Some(String::from("/r/proj/new")),
        get_path_from_event(&WatchEvent::Rename(p(), String::from("/r/proj/new")))
    );
    assert_eq!(None, get_path_from_event(&WatchEvent::NoticeWrite(p())));
    assert_eq!(None, get_path_from_event(&WatchEvent::NoticeRemove(p())));
    assert_eq!(None, get_path_from_event(&WatchEvent::Rescan));
    assert_eq!(None, get_path_from_event(&WatchEvent::Error));
}

#[test]
fn debouncer_waits_while_idle() {
    let mut d = Debouncer::new(2000);
    match d.step(100, None) {
        DebounceAction::Wait => {}
        _ => panic!("an idle debouncer with no event keeps waiting"),
    }
}

#[test]
fn debouncer_collects_until_quiet_window_elapses() {
    let mut d = Debouncer::new(2000);

    match d.step(1000, Some(WatchEvent::Write(String::from("/r/p/a")))) {
        DebounceAction::Poll => {}
        _ => panic!("the first event opens a batch and polls"),
    }
    match d.step(1500, Some(WatchEvent::Write(String::from("/r/p/b")))) {
        DebounceAction::Poll => {}
        _ => panic!("events inside the window are collected"),
    }
    match d.step(2500, None) {
        DebounceAction::Poll => {}
        _ => panic!("the window is measured from the first event"),
    }
    match d.step(3000, Some(WatchEvent::Write(String::from("/r/p/c")))) {
        DebounceAction::Flush(batch) => {
            // the event arriving as the window closes still joins the batch
            assert_eq!(3, batch.len());
        }
        _ => panic!("the batch closes once the window has elapsed"),
    }
    match d.phase {
        DebouncePhase::Idle => {}
        _ => panic!("the debouncer returns to idle after a flush"),
    }
    assert_eq!(0, d.pending.len());
}

#[test]
fn debouncer_window_measured_from_first_event() {
    let mut d = Debouncer::new(2000);
    d.step(1000, Some(WatchEvent::Create(String::from("/r/p/a"))));
    match d.step(2999, None) {
        DebounceAction::Poll => {}
        _ => panic!("1999 ms after the first event the batch is still open"),
    }
    match d.step(3000, None) {
        DebounceAction::Flush(batch) => assert_eq!(1, batch.len()),
        _ => panic!("2000 ms after the first event the batch closes"),
    }
}

#[test]
fn group_events_by_project_buckets_paths() {
    let config = get_mock_config();
    let tracker = TimeTracker::new(&config);
    let events = vec![
        WatchEvent::Write(String::from("/Users/josh/Projects/alpha/src/a.rs")),
        WatchEvent::NoticeWrite(String::from("/Users/josh/Projects/alpha/src/a.rs")),
        WatchEvent::Create(String::from("/Users/josh/Projects/beta/b.rs")),
        WatchEvent::Write(String::from("/Users/josh/.timetrack_raw")),
        WatchEvent::Write(String::from("/Users/josh/Projects/alpha/src/c.rs")),
        WatchEvent::Rescan,
    ];

    let groups = tracker.group_events_by_project(&events);

    assert_eq!(2, groups.len());
    let alpha = groups.iter().find(|g| g.0 == "alpha").expect("alpha grouped");
    assert_eq!(
        vec![
            "/Users/josh/Projects/alpha/src/a.rs".to_string(),
            "/Users/josh/Projects/alpha/src/c.rs".to_string(),
        ],
        alpha.1
    );
    let beta = groups.iter().find(|g| g.0 == "beta").expect("beta grouped");
    assert_eq!(vec!["/Users/josh/Projects/beta/b.rs".to_string()], beta.1);
}

#[test]
fn project_dir_recovers_working_directory() {
    assert_eq!(
        "/Users/josh/Projects/alpha",
        project_dir("alpha", "/Users/josh/Projects/alpha/src/a.rs")
    );
}

#[test]
fn ignore_output_with_match_keeps_the_batch() {
    let stdout = "\t::\tsrc/main.rs\n.gitignore:1:target\ttarget\n";
    assert!(output_indicates_not_ignored(stdout, ""));
}

#[test]
fn ignore_output_without_match_drops_the_batch() {
    let stdout = ".gitignore:1:target\ttarget\n";
    assert!(!output_indicates_not_ignored(stdout, ""));
}

#[test]
fn ignore_output_outside_repository_fails_open() {
    let stderr = "fatal: Not a git repository (or any of the parent directories): .git\n";
    assert!(output_indicates_not_ignored("", stderr));
}

#[test]
fn schedule_reports_unsupported() {
    let config = get_mock_config();
    let tracker = TimeTracker::new(&config);
    assert_eq!(
        "Schedule configuration is not supported on your operating system",
        tracker.schedule()
    );
    assert_eq!(
        "Schedule configuration is not supported on your operating system",
        tracker.unschedule()
    );
}
