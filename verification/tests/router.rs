//! The group router: configuration lookup and engine caching.
use wclipd::clip::{ClipBody, Entry};
use wclipd::config::{CategoryConfig, Expiration, Moments, Storage};
use wclipd::backend::{BackendGroup, CleanCfg};
use wclipd::manager::Manager;

fn text(s: &str) -> Entry {
    Entry::text(s.to_string(), None)
}

fn moments() -> Moments {
    Moments { login: None, boot: None }
}

#[test]
fn router_pushes_and_finds() {
    let mut m = Manager::new(Vec::new(), moments());
    let ix = m.push("default", text("hello"), 1000).expect("memory storage cannot fail");
    assert_eq!(ix, 0);
    let rec = m.find("default", Some(0), 1001).expect("memory storage cannot fail").expect("stored record");
    match rec.entry.body {
        ClipBody::Text(t) => assert_eq!(t, "hello"),
        ClipBody::Data(_) => panic!("expected a text body"),
    }
    assert!(m.find("default", Some(1), 1002).expect("memory storage cannot fail").is_none());
}

#[test]
fn router_select_touches() {
    let mut m = Manager::new(Vec::new(), moments());
    m.push("g", text("a"), 1000).expect("memory storage cannot fail");
    m.push("g", text("b"), 1001).expect("memory storage cannot fail");
    let picked = m.select("g", Some(0), 1002).expect("memory storage cannot fail").expect("record present");
    assert_eq!(picked.index, 0);
    let newest = m.find("g", None, 1003).expect("memory storage cannot fail").expect("group not empty");
    assert_eq!(newest.index, 0, "selection refreshed the record's recency");
}

#[test]
fn router_applies_group_config_on_access() {
    let config = vec![(
        "capped".to_string(),
        CategoryConfig {
            storage: Storage::Memory,
            expiration: Expiration::Never,
            max_entries: Some(1),
        },
    )];
    let mut m = Manager::new(config, moments());
    m.push("capped", text("one"), 1000).expect("memory storage cannot fail");
    m.push("capped", text("two"), 1001).expect("memory storage cannot fail");
    let rows = m.previews("capped", 40, 1002).expect("memory storage cannot fail");
    assert_eq!(rows.len(), 1, "the cap is applied lazily on access");
    assert_eq!(rows[0].index, 1);
}

#[test]
fn router_default_entry_governs_unknown_names() {
    let config = vec![(
        "default".to_string(),
        CategoryConfig {
            storage: Storage::Memory,
            expiration: Expiration::Never,
            max_entries: Some(1),
        },
    )];
    let mut m = Manager::new(config, moments());
    m.push("unseen", text("one"), 1000).expect("memory storage cannot fail");
    m.push("unseen", text("two"), 1001).expect("memory storage cannot fail");
    let rows = m.previews("unseen", 40, 1002).expect("memory storage cannot fail");
    assert_eq!(rows.len(), 1, "the default entry's cap governs unknown names");
}

#[test]
fn router_fixed_expiration_uses_boot_moment() {
    let config = vec![(
        "default".to_string(),
        CategoryConfig {
            storage: Storage::Memory,
            expiration: Expiration::OnReboot,
            max_entries: None,
        },
    )];
    let mut m = Manager::new(config, Moments { login: None, boot: Some(5000) });
    let first = m.push("g", text("before boot"), 4000).expect("memory storage cannot fail");
    assert_eq!(first, 0);
    let probe = m.previews("g", 40, 4500).expect("memory storage cannot fail");
    assert_eq!(probe.len(), 0, "a record last used before boot is already expired");
    let second = m.push("g", text("after boot"), 6000).expect("memory storage cannot fail");
    assert_eq!(second, 0, "the group was emptied, so indices restart");
    let rows = m.previews("g", 40, 7000).expect("memory storage cannot fail");
    assert_eq!(rows.len(), 1, "records last used at or before boot are evicted");
    assert_eq!(rows[0].index, 0);
}

#[test]
fn router_groups_lists_names_across_engines() {
    let config = vec![(
        "elsewhere".to_string(),
        CategoryConfig {
            storage: Storage::Disk("/tmp/wclipd_router_spot".to_string()),
            expiration: Expiration::Never,
            max_entries: None,
        },
    )];
    let mut m = Manager::new(config, moments());
    m.push("default", text("a"), 1000).expect("the store opens");
    m.push("elsewhere", text("b"), 1001).expect("the disk store opens");
    let names = m.groups();
    assert!(names.iter().any(|n| n == "default"));
    assert!(names.iter().any(|n| n == "elsewhere"));
}

#[test]
fn router_clear_group_empties_only_that_group() {
    let mut m = Manager::new(Vec::new(), moments());
    m.push("a", text("x"), 1000).expect("memory storage cannot fail");
    m.push("b", text("y"), 1001).expect("memory storage cannot fail");
    m.clear_group("a", 1002).expect("memory storage cannot fail");
    assert!(m.find("a", None, 1003).expect("memory storage cannot fail").is_none());
    assert!(m.find("b", None, 1004).expect("memory storage cannot fail").is_some());
}

#[test]
fn router_delete_is_a_noop_on_absent_index() {
    let mut m = Manager::new(Vec::new(), moments());
    m.push("g", text("x"), 1000).expect("memory storage cannot fail");
    m.delete("g", 9, 1001).expect("memory storage cannot fail");
    assert!(m.find("g", Some(0), 1002).expect("memory storage cannot fail").is_some());
    m.delete("g", 0, 1003).expect("memory storage cannot fail");
    assert!(m.find("g", Some(0), 1004).expect("memory storage cannot fail").is_none());
}

#[test]
fn storage_classes_and_router_persistence() {
    assert!(matches!(Storage::Memory.backend(), Ok(wclipd::manager::Engine::Memory(_))));
    let config = vec![(
        "default".to_string(),
        CategoryConfig {
            storage: Storage::Disk("/tmp/wclipd_router_disk".to_string()),
            expiration: Expiration::Never,
            max_entries: None,
        },
    )];
    let mut m = Manager::new(config.clone(), moments());
    m.clear_group("keep", 1000).expect("the disk store opens");
    m.push("keep", text("persisted"), 1001).expect("the disk store opens");
    drop(m);
    // A new router over the same configuration reloads the group from
    // the store on first access.
    let mut m2 = Manager::new(config, moments());
    let rec = m2
        .find("keep", Some(0), 2000)
        .expect("the disk store reopens")
        .expect("the record was reloaded");
    match rec.entry.body {
        ClipBody::Text(t) => assert_eq!(t, "persisted"),
        ClipBody::Data(_) => panic!("expected a text body"),
    }
}
