//! The dispatcher driven over the wire protocol, with a stub watcher.

use fsmonitor::monitor::{Event, Fatal, Monitor, StubWatch, Watch};
use fsmonitor::path::MPath;

fn lines<W: Watch>(monitor: &Monitor<W>) -> Vec<String> {
    monitor.out.iter().map(|l| String::from_utf8(l.clone()).unwrap()).collect()
}

fn input(s: &str) -> Event {
    Event::Input(s.as_bytes().to_vec())
}

fn fs(path: &str) -> Event {
    Event::Fs(Some(path.as_bytes().to_vec()))
}

fn rendered(p: &MPath) -> String {
    String::from_utf8(p.render()).unwrap()
}

#[test]
fn test_version() {
    let mut monitor = Monitor::new(StubWatch {});

    monitor.handle_event(input("VERSION 1\n")).unwrap();

    assert_eq!(lines(&monitor), vec!["VERSION 1"]);
}

#[test]
fn test_start() {
    let mut monitor = Monitor::new(StubWatch {});
    let id = "123";
    let root = "/tmp/sample";

    monitor.handle_event(input(&format!("START {} {}\n", id, root))).unwrap();

    assert_eq!(monitor.replicas.len(), 1);
    assert_eq!(monitor.replicas[0].id, id.as_bytes().to_vec());
    assert_eq!(rendered(&monitor.replicas[0].replica.root), root);
    assert!(monitor.replicas[0].replica.paths.iter().any(|p| rendered(p) == root));
    assert_eq!(lines(&monitor), vec!["OK"]);
}

#[test]
fn test_start_with_subdir() {
    let mut monitor = Monitor::new(StubWatch {});
    let id = "123";
    let root = "/tmp/sample";
    let subdir = "subdir";

    monitor.handle_event(input(&format!("START {} {} {}\n", id, root, subdir))).unwrap();

    assert_eq!(monitor.replicas.len(), 1);
    assert_eq!(monitor.replicas[0].id, id.as_bytes().to_vec());
    assert_eq!(rendered(&monitor.replicas[0].replica.root), root);
    assert!(
        monitor.replicas[0].replica.paths.iter().any(
            |p| rendered(p) == format!("{}/{}", root, subdir),
        )
    );
    assert_eq!(lines(&monitor), vec!["OK"]);
}

#[test]
fn test_dir() {
    let mut monitor = Monitor::new(StubWatch {});

    monitor.handle_event(input("DIR\n")).unwrap();

    assert_eq!(lines(&monitor), vec!["OK"]);
}

#[test]
fn test_dir_with_dir() {
    let mut monitor = Monitor::new(StubWatch {});

    monitor.handle_event(input("DIR dir\n")).unwrap();

    assert_eq!(lines(&monitor), vec!["OK"]);
}

#[test]
fn test_changes() {
    let mut monitor = Monitor::new(StubWatch {});
    let id = "123";
    let root = "/tmp/sample";
    let filename = "filename";

    monitor.handle_event(input(&format!("START {} {}\n", id, root))).unwrap();
    monitor.handle_event(fs(&format!("{}/{}", root, filename))).unwrap();
    monitor.handle_event(input(&format!("CHANGES {}\n", id))).unwrap();

    assert_eq!(
        lines(&monitor),
        vec![
            "OK".to_string(),
            format!("CHANGES {}", id),
            format!("RECURSIVE {}", filename),
            "DONE".to_string(),
        ],
    );
}

#[test]
fn test_changes_with_subdir() {
    let mut monitor = Monitor::new(StubWatch {});
    let id = "123";
    let root = "/tmp/sample";
    let subdir = "subdir";
    let filename = "filename";

    monitor.handle_event(input(&format!("START {} {} {}\n", id, root, subdir))).unwrap();
    monitor.handle_event(fs(&format!("{}/{}/{}", root, subdir, filename))).unwrap();
    monitor.handle_event(input(&format!("CHANGES {}\n", id))).unwrap();

    assert_eq!(
        lines(&monitor),
        vec![
            "OK".to_string(),
            format!("CHANGES {}", id),
            format!("RECURSIVE {}/{}", subdir, filename),
            "DONE".to_string(),
        ],
    );
}

#[test]
fn start_twice_keeps_one_watched_path() {
    let mut monitor = Monitor::new(StubWatch {});

    monitor.handle_event(input("START 123 /tmp/sample\n")).unwrap();
    monitor.handle_event(input("START 123 /tmp/sample\n")).unwrap();

    assert_eq!(monitor.replicas.len(), 1);
    assert_eq!(monitor.replicas[0].replica.paths.len(), 1);
    assert_eq!(lines(&monitor), vec!["OK", "OK"]);
}

#[test]
fn identical_events_collapse_in_pending() {
    let mut monitor = Monitor::new(StubWatch {});

    monitor.handle_event(input("START 123 /tmp/sample\n")).unwrap();
    monitor.handle_event(fs("/tmp/sample/filename")).unwrap();
    monitor.handle_event(fs("/tmp/sample/filename")).unwrap();

    assert_eq!(monitor.replicas[0].replica.pending_changes.len(), 1);
    // Each event still notifies once.
    assert_eq!(lines(&monitor), vec!["OK", "CHANGES 123", "CHANGES 123"]);
}

#[test]
fn unknown_verb_is_fatal() {
    let mut monitor = Monitor::new(StubWatch {});

    let r = monitor.handle_event(input("FROB 1\n"));

    assert!(matches!(r, Err(Fatal::Protocol)));
    assert_eq!(lines(&monitor), vec!["ERROR Unexpected%20cmd%3A%20FROB"]);
}

#[test]
fn wrong_version_is_fatal() {
    let mut monitor = Monitor::new(StubWatch {});

    let r = monitor.handle_event(input("VERSION 2\n"));

    assert!(matches!(r, Err(Fatal::Protocol)));
    assert_eq!(lines(&monitor), vec!["ERROR Unexpected%20version%3A%202"]);
}

#[test]
fn changes_without_argument_is_fatal() {
    let mut monitor = Monitor::new(StubWatch {});

    let r = monitor.handle_event(input("CHANGES\n"));

    assert!(matches!(r, Err(Fatal::Protocol)));
    assert_eq!(lines(&monitor), vec!["ERROR Missing%20argument%3A%20CHANGES"]);
}

#[test]
fn changes_on_unknown_id_is_fatal() {
    let mut monitor = Monitor::new(StubWatch {});

    let r = monitor.handle_event(input("CHANGES 9\n"));

    assert!(matches!(r, Err(Fatal::Protocol)));
    assert_eq!(lines(&monitor), vec!["ERROR Unknown%20replica%3A%209"]);
}

#[test]
fn reset_on_unknown_id_is_silent() {
    let mut monitor = Monitor::new(StubWatch {});

    monitor.handle_event(input("RESET 9\n")).unwrap();

    assert_eq!(lines(&monitor), Vec::<String>::new());
}

#[test]
fn reset_then_wait_is_fatal() {
    let mut monitor = Monitor::new(StubWatch {});

    monitor.handle_event(input("START 9 /tmp/r\n")).unwrap();
    monitor.handle_event(input("RESET 9\n")).unwrap();
    let r = monitor.handle_event(input("WAIT 9\n"));

    assert!(matches!(r, Err(Fatal::Protocol)));
    assert_eq!(monitor.replicas.len(), 0);
    assert_eq!(lines(&monitor), vec!["OK", "ERROR Unknown%20replica%3A%209"]);
}

#[test]
fn wait_on_known_id_is_silent() {
    let mut monitor = Monitor::new(StubWatch {});

    monitor.handle_event(input("START 9 /tmp/r\n")).unwrap();
    monitor.handle_event(input("WAIT 9\n")).unwrap();

    assert_eq!(lines(&monitor), vec!["OK"]);
}

#[test]
fn event_without_path_is_ignored() {
    let mut monitor = Monitor::new(StubWatch {});

    monitor.handle_event(input("START 9 /tmp/r\n")).unwrap();
    monitor.handle_event(Event::Fs(None)).unwrap();

    assert_eq!(monitor.replicas[0].replica.pending_changes.len(), 0);
    assert_eq!(lines(&monitor), vec!["OK"]);
}

#[test]
fn event_under_no_root_produces_no_output() {
    let mut monitor = Monitor::new(StubWatch {});

    monitor.handle_event(input("START 9 /tmp/r\n")).unwrap();
    monitor.handle_event(fs("/elsewhere/file")).unwrap();

    assert_eq!(monitor.replicas[0].replica.pending_changes.len(), 0);
    assert_eq!(lines(&monitor), vec!["OK"]);
}

#[test]
fn overlapping_roots_both_notified() {
    let mut monitor = Monitor::new(StubWatch {});

    monitor.handle_event(input("START a /x\n")).unwrap();
    monitor.handle_event(input("START b /x/y\n")).unwrap();
    monitor.handle_event(fs("/x/y/z")).unwrap();
    monitor.handle_event(input("CHANGES a\n")).unwrap();
    monitor.handle_event(input("CHANGES b\n")).unwrap();

    assert_eq!(
        lines(&monitor),
        vec![
            "OK",
            "OK",
            "CHANGES a",
            "CHANGES b",
            "RECURSIVE y/z",
            "DONE",
            "RECURSIVE z",
            "DONE",
        ],
    );
}

#[test]
fn space_in_path_argument_decodes() {
    let mut monitor = Monitor::new(StubWatch {});

    monitor.handle_event(input("START 1 /tmp/has%20space\n")).unwrap();

    assert_eq!(rendered(&monitor.replicas[0].replica.root), "/tmp/has space");
    assert_eq!(lines(&monitor), vec!["OK"]);
}

#[test]
fn debug_and_done_are_silent() {
    let mut monitor = Monitor::new(StubWatch {});

    monitor.handle_event(input("DEBUG anything\n")).unwrap();
    monitor.handle_event(input("DONE\n")).unwrap();

    assert_eq!(lines(&monitor), Vec::<String>::new());
}
