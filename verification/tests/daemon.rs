//! The daemon core: dispatch, echo suppression and group isolation.
use wclipd::clip::{ClipBody, Entry};
use wclipd::config::{CategoryConfig, DaemonConfig, Expiration, Moments, Storage};
use wclipd::daemon::Daemon;
use wclipd::message::{Request, Response, Wipe};

fn text(s: &str) -> Entry {
    Entry::text(s.to_string(), None)
}

fn moments() -> Moments {
    Moments { login: None, boot: None }
}

fn daemon() -> Daemon {
    Daemon::new(DaemonConfig::default(), moments())
}

#[test]
fn ping_and_stop() {
    let mut d = daemon();
    let (resp, writes, stop) = d.process_request(Request::Ping, 1000);
    assert!(matches!(resp, Response::Okay));
    assert!(writes.is_empty());
    assert!(!stop);
    let (resp, writes, stop) = d.process_request(Request::Stop, 1001);
    assert!(matches!(resp, Response::Okay));
    assert!(writes.is_empty());
    assert!(stop);
}

#[test]
fn clear_writes_both_selections() {
    let mut d = daemon();
    let (resp, writes, stop) = d.process_request(Request::Clear, 1000);
    assert!(matches!(resp, Response::Okay));
    assert!(!stop);
    assert_eq!(writes.len(), 2);
    assert!(writes[0].primary);
    assert!(!writes[1].primary);
    assert!(writes[0].entry.is_empty());
    assert!(writes[1].entry.is_empty());
}

#[test]
fn copy_then_find_returns_entry() {
    let mut d = daemon();
    let req = Request::Copy { entry: text("hello"), primary: false, group: None, index: None };
    let (resp, writes, _) = d.process_request(req, 1000);
    assert!(matches!(resp, Response::Okay));
    assert_eq!(writes.len(), 1);
    let (resp, _, _) = d.process_request(Request::Find { index: None, group: None }, 1001);
    match resp {
        Response::Entry { entry, index } => {
            assert_eq!(index, 0);
            match entry.body {
                ClipBody::Text(t) => assert_eq!(t, "hello"),
                ClipBody::Data(_) => panic!("expected a text body"),
            }
        },
        _ => panic!("expected the stored entry"),
    }
}

#[test]
fn find_unknown_index_is_an_error() {
    let mut d = daemon();
    let (resp, _, _) = d.process_request(Request::Find { index: Some(3), group: None }, 1000);
    assert!(matches!(resp, Response::Error { .. }));
}

#[test]
fn select_recopies_and_refreshes() {
    let mut d = daemon();
    let copy_a = Request::Copy { entry: text("a"), primary: false, group: None, index: None };
    let copy_b = Request::Copy { entry: text("b"), primary: false, group: None, index: None };
    d.process_request(copy_a, 1000);
    d.process_request(copy_b, 1001);
    let sel = Request::Select { index: 0, primary: true, group: None };
    let (resp, writes, _) = d.process_request(sel, 1002);
    assert!(matches!(resp, Response::Okay));
    assert_eq!(writes.len(), 1);
    assert!(writes[0].primary);
    match &writes[0].entry.body {
        ClipBody::Text(t) => assert_eq!(t, "a"),
        ClipBody::Data(_) => panic!("expected a text body"),
    }
    // The selected record is the latest again.
    let (resp, _, _) = d.process_request(Request::Find { index: None, group: None }, 1003);
    match resp {
        Response::Entry { index, .. } => assert_eq!(index, 0),
        _ => panic!("expected an entry"),
    }
}

#[test]
fn select_unknown_index_is_an_error() {
    let mut d = daemon();
    let sel = Request::Select { index: 5, primary: false, group: None };
    let (resp, writes, _) = d.process_request(sel, 1000);
    assert!(matches!(resp, Response::Error { .. }));
    assert!(writes.is_empty());
}

#[test]
fn echo_suppression_drops_own_write() {
    let mut d = daemon();
    let req = Request::Copy { entry: text("echoed"), primary: false, group: None, index: None };
    d.process_request(req, 1000);
    // The capture loop sees the daemon's own write come back, possibly
    // with different hints.
    let event = Entry::text("echoed".to_string(), Some("text/html".to_string()));
    let (stored, write) = d.handle_capture(event, 1001);
    assert!(stored.is_none(), "the echoed entry is not re-ingested");
    assert!(write.is_none());
    let (resp, _, _) = d.process_request(
        Request::List { length: 40, group: None },
        1002,
    );
    match resp {
        Response::Previews { previews } => assert_eq!(previews.len(), 1),
        _ => panic!("expected previews"),
    }
}

#[test]
fn capture_accepts_new_entries_and_empty_is_dropped() {
    let mut d = daemon();
    let (stored, write) = d.handle_capture(text("fresh"), 1000);
    assert_eq!(stored, Some(0));
    assert!(write.is_none(), "recopy is off by default");
    let (stored, _) = d.handle_capture(text(""), 1001);
    assert!(stored.is_none(), "empty clipboard content is dropped");
    // Only the single most recent write is suppressed.
    let older = Request::Copy { entry: text("old"), primary: false, group: None, index: None };
    let newer = Request::Copy { entry: text("new"), primary: false, group: None, index: None };
    d.process_request(older, 1002);
    d.process_request(newer, 1003);
    let (stored, _) = d.handle_capture(text("old"), 1004);
    assert!(stored.is_some(), "an older daemon write is no longer suppressed");
}

#[test]
fn capture_recopy_reasserts_other_selection() {
    let mut cfg = DaemonConfig::default();
    cfg.recopy_live = true;
    let mut d = Daemon::new(cfg, moments());
    let (stored, write) = d.handle_capture(text("seen"), 1000);
    assert!(stored.is_some());
    let write = write.expect("recopy mode re-asserts the content");
    assert!(!write.primary);
    // The re-asserted write is itself suppressed when it echoes back.
    let (stored, _) = d.handle_capture(text("seen"), 1001);
    assert!(stored.is_none());
}

#[test]
fn concurrent_groups_stay_isolated() {
    let mut d = daemon();
    let into_a = Request::Copy {
        entry: text("alpha"),
        primary: false,
        group: Some("a".to_string()),
        index: None,
    };
    let into_b = Request::Copy {
        entry: text("beta"),
        primary: false,
        group: Some("b".to_string()),
        index: None,
    };
    d.process_request(into_a, 1000);
    d.process_request(into_b, 1001);
    // Both groups allocated index zero in their own index spaces.
    for (name, want) in [("a", "alpha"), ("b", "beta")] {
        let find = Request::Find { index: Some(0), group: Some(name.to_string()) };
        let (resp, _, _) = d.process_request(find, 1002);
        match resp {
            Response::Entry { entry, index } => {
                assert_eq!(index, 0);
                match entry.body {
                    ClipBody::Text(t) => assert_eq!(t, want),
                    ClipBody::Data(_) => panic!("expected a text body"),
                }
            },
            _ => panic!("expected an entry in group {name}"),
        }
    }
    let (resp, _, _) = d.process_request(
        Request::List { length: 40, group: Some("a".to_string()) },
        1003,
    );
    match resp {
        Response::Previews { previews } => {
            assert_eq!(previews.len(), 1, "group a holds only its own record");
        },
        _ => panic!("expected previews"),
    }
}

#[test]
fn wipe_single_and_all() {
    let mut d = daemon();
    let copy = Request::Copy { entry: text("x"), primary: false, group: None, index: None };
    d.process_request(copy, 1000);
    let copy2 = Request::Copy { entry: text("y"), primary: false, group: None, index: None };
    d.process_request(copy2, 1001);
    let (resp, _, _) = d.process_request(
        Request::Wipe { wipe: Wipe::Single { index: 0 }, group: None },
        1002,
    );
    assert!(matches!(resp, Response::Okay));
    let (resp, _, _) = d.process_request(
        Request::Wipe { wipe: Wipe::Single { index: 0 }, group: None },
        1003,
    );
    assert!(matches!(resp, Response::Error { .. }), "the index is already gone");
    let (resp, _, _) = d.process_request(Request::Wipe { wipe: Wipe::All, group: None }, 1004);
    assert!(matches!(resp, Response::Okay));
    let (resp, _, _) = d.process_request(Request::List { length: 40, group: None }, 1005);
    match resp {
        Response::Previews { previews } => assert!(previews.is_empty()),
        _ => panic!("expected previews"),
    }
}

#[test]
fn delete_request_removes_one_record() {
    let mut d = daemon();
    let copy = Request::Copy { entry: text("x"), primary: false, group: None, index: None };
    d.process_request(copy, 1000);
    let (resp, _, _) = d.process_request(Request::Delete { index: 0, group: None }, 1001);
    assert!(matches!(resp, Response::Okay));
    let (resp, _, _) = d.process_request(Request::Find { index: Some(0), group: None }, 1002);
    assert!(matches!(resp, Response::Error { .. }));
    let (resp, _, _) = d.process_request(Request::Delete { index: 7, group: None }, 1003);
    assert!(matches!(resp, Response::Error { .. }), "deleting an absent index is an error");
}

#[test]
fn copy_at_explicit_index_rewrites() {
    let mut d = daemon();
    let copy = Request::Copy { entry: text("draft"), primary: false, group: None, index: None };
    d.process_request(copy, 1000);
    let edit = Request::Copy { entry: text("final"), primary: false, group: None, index: Some(0) };
    d.process_request(edit, 1001);
    let (resp, _, _) = d.process_request(Request::Find { index: Some(0), group: None }, 1002);
    match resp {
        Response::Entry { entry, .. } => match entry.body {
            ClipBody::Text(t) => assert_eq!(t, "final"),
            ClipBody::Data(_) => panic!("expected a text body"),
        },
        _ => panic!("expected an entry"),
    }
}

#[test]
fn capped_group_config_evicts_on_access() {
    let mut cfg = DaemonConfig::default();
    cfg.backends.push((
        "notes".to_string(),
        CategoryConfig {
            storage: Storage::Memory,
            expiration: Expiration::Never,
            max_entries: Some(2),
        },
    ));
    let mut d = Daemon::new(cfg, moments());
    for (s, t) in [("a", 1000u64), ("b", 1001), ("c", 1002)] {
        let copy = Request::Copy {
            entry: text(s),
            primary: false,
            group: Some("notes".to_string()),
            index: None,
        };
        d.process_request(copy, t);
    }
    let (resp, _, _) = d.process_request(
        Request::List { length: 40, group: Some("notes".to_string()) },
        1003,
    );
    match resp {
        Response::Previews { previews } => {
            assert_eq!(previews.len(), 2);
            let kept: Vec<usize> = previews.iter().map(|p| p.index).collect();
            assert_eq!(kept, vec![2, 1], "the oldest record was evicted");
        },
        _ => panic!("expected previews"),
    }
}

#[test]
fn duration_expiry_config_drops_stale_records() {
    let mut cfg = DaemonConfig::default();
    cfg.backends.push((
        "volatile".to_string(),
        CategoryConfig {
            storage: Storage::Memory,
            expiration: Expiration::Duration(1),
            max_entries: None,
        },
    ));
    let mut d = Daemon::new(cfg, moments());
    let copy = Request::Copy {
        entry: text("fleeting"),
        primary: false,
        group: Some("volatile".to_string()),
        index: None,
    };
    d.process_request(copy, 10_000);
    // Two seconds later the record's last use is past the one-second
    // lifetime, so the next access evicts it.
    let (resp, _, _) = d.process_request(
        Request::List { length: 40, group: Some("volatile".to_string()) },
        12_000,
    );
    match resp {
        Response::Previews { previews } => assert!(previews.is_empty()),
        _ => panic!("expected previews"),
    }
}

#[test]
fn groups_request_lists_known_groups() {
    let mut d = daemon();
    let copy = Request::Copy {
        entry: text("x"),
        primary: false,
        group: Some("mine".to_string()),
        index: None,
    };
    d.process_request(copy, 1000);
    let (resp, _, _) = d.process_request(Request::Groups, 1001);
    match resp {
        Response::Groups { groups } => {
            assert!(groups.iter().any(|g| g == "mine"));
        },
        _ => panic!("expected group names"),
    }
}
