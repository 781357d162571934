//! Symbolic-link aliasing: `LINK` registration and event attribution
//! through the link map, with a watcher whose canonicalization is a fixed
//! table.

use fsmonitor::monitor::{Event, Fatal, Monitor, Watch, WatchError};
use fsmonitor::path::MPath;

/// A watcher that resolves `/roots/alias` to `/real` and refuses the path
/// `/roots/broken`, the way a broken symbolic link would fail.
struct TableWatch {}

impl Watch for TableWatch {
    fn watch(&mut self, _path: &MPath, _recursive: bool) -> Result<(), WatchError> {
        Ok(())
    }

    fn unwatch(&mut self, _path: &MPath) -> Result<(), WatchError> {
        Ok(())
    }

    fn canonicalize(&self, path: &MPath) -> Result<MPath, WatchError> {
        let shown = String::from_utf8(path.render()).unwrap();
        if shown == "/roots/alias" {
            Ok(MPath::parse(&b"/real".to_vec()))
        } else if shown == "/roots/broken" {
            Err(WatchError { msg: b"no such file or directory".to_vec() })
        } else {
            Ok(path.clone())
        }
    }
}

fn lines<W: Watch>(monitor: &Monitor<W>) -> Vec<String> {
    monitor.out.iter().map(|l| String::from_utf8(l.clone()).unwrap()).collect()
}

fn input(s: &str) -> Event {
    Event::Input(s.as_bytes().to_vec())
}

fn fs(path: &str) -> Event {
    Event::Fs(Some(path.as_bytes().to_vec()))
}

#[test]
fn link_records_alias_and_attributes_events() {
    let mut monitor = Monitor::new(TableWatch {});

    monitor.handle_event(input("START 1 /roots\n")).unwrap();
    monitor.handle_event(input("LINK alias\n")).unwrap();

    assert_eq!(monitor.link_map.len(), 1);
    assert_eq!(String::from_utf8(monitor.link_map[0].canon.render()).unwrap(), "/real");
    assert_eq!(monitor.link_map[0].links.len(), 1);
    assert_eq!(
        String::from_utf8(monitor.link_map[0].links[0].render()).unwrap(),
        "/roots/alias",
    );

    // An event under the canonical path lands under the alias too.
    monitor.handle_event(fs("/real/file")).unwrap();
    monitor.handle_event(input("CHANGES 1\n")).unwrap();

    assert_eq!(
        lines(&monitor),
        vec!["OK", "OK", "CHANGES 1", "RECURSIVE alias/file", "DONE"],
    );
}

#[test]
fn link_twice_keeps_one_alias() {
    let mut monitor = Monitor::new(TableWatch {});

    monitor.handle_event(input("START 1 /roots\n")).unwrap();
    monitor.handle_event(input("LINK alias\n")).unwrap();
    monitor.handle_event(input("LINK alias\n")).unwrap();

    assert_eq!(monitor.link_map.len(), 1);
    assert_eq!(monitor.link_map[0].links.len(), 1);
}

/// A watcher that accepts every watch but refuses every unwatch, to show
/// when `RESET` actually asks for one.
struct VetoUnwatch {}

impl Watch for VetoUnwatch {
    fn watch(&mut self, _path: &MPath, _recursive: bool) -> Result<(), WatchError> {
        Ok(())
    }

    fn unwatch(&mut self, _path: &MPath) -> Result<(), WatchError> {
        Err(WatchError { msg: b"unwatch refused".to_vec() })
    }

    fn canonicalize(&self, path: &MPath) -> Result<MPath, WatchError> {
        Ok(path.clone())
    }
}

#[test]
fn reset_with_uncovered_path_propagates_unwatch_failure() {
    let mut monitor = Monitor::new(VetoUnwatch {});

    monitor.handle_event(input("START a /x\n")).unwrap();
    let r = monitor.handle_event(input("RESET a\n"));

    // The replica is gone either way; only the unwatch call failed.
    assert!(matches!(r, Err(Fatal::Watch(_))));
    assert_eq!(monitor.replicas.len(), 0);
}

#[test]
fn reset_skips_paths_still_covered() {
    let mut monitor = Monitor::new(VetoUnwatch {});

    monitor.handle_event(input("START a /x\n")).unwrap();
    monitor.handle_event(input("START b /x\n")).unwrap();
    // Replica b still covers /x, so no unwatch is attempted and the
    // refusing watcher never gets to object.
    monitor.handle_event(input("RESET a\n")).unwrap();

    assert_eq!(monitor.replicas.len(), 1);
    assert_eq!(monitor.replicas[0].id, b"b".to_vec());
}

#[test]
fn broken_link_is_fatal_and_changes_nothing() {
    let mut monitor = Monitor::new(TableWatch {});

    monitor.handle_event(input("START 1 /roots\n")).unwrap();
    let r = monitor.handle_event(input("LINK broken\n"));

    assert!(matches!(r, Err(Fatal::Watch(_))));
    assert_eq!(monitor.link_map.len(), 0);
    assert_eq!(lines(&monitor), vec!["OK"]);
}
