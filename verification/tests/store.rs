//! The group store: dedup, index allocation, eviction and recency.
use wclipd::backend::{BackendGroup, CleanCfg, Record};
use wclipd::clip::{ClipBody, Entry};
use wclipd::disk::Disk;
use wclipd::memory::MemoryGroup;

fn text(s: &str) -> Entry {
    Entry::text(s.to_string(), None)
}

#[test]
fn push_dedup_returns_same_index() {
    let mut g = MemoryGroup::new();
    let first = g.push(text("hello"), 1000);
    let second = g.push(text("hello"), 2000);
    assert_eq!(first, 0);
    assert_eq!(second, 0);
    assert_eq!(g.records().len(), 1);
    let rec = g.get(0).expect("record stored");
    assert_eq!(rec.last_used, 2000);
    assert_eq!(rec.entry_date, 1000);
}

#[test]
fn push_distinct_bodies_monotonic_indices() {
    let mut g = MemoryGroup::new();
    let a = g.push(text("a"), 1000);
    let b = g.push(text("b"), 1001);
    let c = g.push(text("c"), 1002);
    assert_eq!((a, b, c), (0, 1, 2));
    // Deleting a middle record never frees its index for the next push.
    g.delete(1);
    let d = g.push(text("d"), 1003);
    assert_eq!(d, 3);
}

#[test]
fn next_index_restarts_after_full_clear() {
    let mut g = MemoryGroup::new();
    g.push(text("a"), 1000);
    g.push(text("b"), 1001);
    g.clear();
    assert_eq!(g.next_index(), 0);
    let again = g.push(text("c"), 1002);
    assert_eq!(again, 0);
}

#[test]
fn eviction_by_count_drops_least_recently_used() {
    let mut g = MemoryGroup::new();
    g.push(text("a"), 1000);
    g.push(text("b"), 1001);
    g.push(text("c"), 1002);
    let cfg = CleanCfg { fixed: None, dynamic: None, max_entries: Some(2) };
    g.clean(&cfg);
    let recs = g.records();
    assert_eq!(recs.len(), 2);
    assert!(g.get(0).is_none(), "oldest record evicted");
    assert!(g.get(1).is_some());
    assert!(g.get(2).is_some());
}

#[test]
fn eviction_by_age_uses_last_use() {
    let mut g = MemoryGroup::new();
    let now: u64 = 10_000;
    g.push(text("stale"), now - 2000);
    g.push(text("live"), now - 500);
    // A dynamic lifetime of one second: the bound is one second ago.
    let cfg = CleanCfg { fixed: None, dynamic: Some(now - 1000), max_entries: None };
    g.clean(&cfg);
    assert!(g.get(0).is_none(), "record last used two seconds ago is gone");
    assert!(g.get(1).is_some(), "record touched half a second ago survives");
}

#[test]
fn expired_but_repushed_record_is_protected() {
    let mut g = MemoryGroup::new();
    let now: u64 = 10_000;
    g.push(text("old"), now - 5000);
    g.push(text("old"), now - 100);
    let cfg = CleanCfg { fixed: None, dynamic: Some(now - 1000), max_entries: None };
    g.clean(&cfg);
    assert!(g.get(0).is_some(), "a re-pushed record carries its new last use");
}

#[test]
fn selection_refreshes_recency() {
    let mut g = MemoryGroup::new();
    let a = g.push(text("a"), 1000);
    let _b = g.push(text("b"), 1001);
    let picked = g.select(Some(a), 1002).expect("record a present");
    assert_eq!(picked.index, a);
    assert_eq!(picked.last_used, 1000, "select returns the record as it stood");
    let top = g.latest().expect("group is not empty");
    assert_eq!(top.index, a, "the selected record is now the latest");
    assert_eq!(top.last_used, 1002);
}

#[test]
fn latest_breaks_ties_by_highest_index() {
    let mut g = MemoryGroup::new();
    g.push(text("a"), 1000);
    g.push(text("b"), 1000);
    let top = g.latest().expect("group is not empty");
    assert_eq!(top.index, 1);
}

#[test]
fn exists_entry_compares_bodies_not_hints() {
    let mut g = MemoryGroup::new();
    g.push(Entry::text("same".to_string(), Some("text/html".to_string())), 1000);
    let probe = Entry::text("same".to_string(), None);
    assert_eq!(g.exists_entry(&probe), Some(0));
    let other = Entry::text("other".to_string(), None);
    assert_eq!(g.exists_entry(&other), None);
}

#[test]
fn find_uses_index_or_latest() {
    let mut g = MemoryGroup::new();
    g.push(text("a"), 1000);
    g.push(text("b"), 2000);
    let by_index = g.find(Some(0)).expect("index zero present");
    assert_eq!(by_index.index, 0);
    let newest = g.find(None).expect("group not empty");
    assert_eq!(newest.index, 1);
    assert!(g.find(Some(9)).is_none());
}

#[test]
fn insert_replaces_record_under_index() {
    let mut g = MemoryGroup::new();
    g.push(text("a"), 1000);
    g.insert(0, Record::new(0, text("edited"), 2000));
    let rec = g.get(0).expect("record present");
    match rec.entry.body {
        ClipBody::Text(t) => assert_eq!(t, "edited"),
        ClipBody::Data(_) => panic!("expected a text body"),
    }
    assert_eq!(g.records().len(), 1);
}

#[test]
fn preview_rows_newest_first() {
    let mut g = MemoryGroup::new();
    g.push(text("one"), 1000);
    g.push(text("two"), 3000);
    g.push(text("three"), 2000);
    let rows = g.preview(40);
    let order: Vec<usize> = rows.iter().map(|p| p.index).collect();
    assert_eq!(order, vec![1, 2, 0]);
    assert_eq!(rows[0].preview, "two");
    assert_eq!(rows[0].last_used, 3000);
}

#[test]
fn touch_refreshes_only_present_records() {
    let mut g = MemoryGroup::new();
    g.push(text("a"), 1000);
    g.touch(0, 5000);
    assert_eq!(g.get(0).unwrap().last_used, 5000);
    g.touch(7, 6000);
    assert_eq!(g.records().len(), 1);
}

#[test]
fn disk_groups_persist_across_reopen() {
    let store = Disk::new("/tmp/wclipd_store_check").expect("the store opens");
    let mut g = store.group("history", 999).expect("the bucket opens");
    g.clear();
    let a = g.push(text("alpha"), 1000);
    let bytes: Vec<u8> = vec![0, 255, 10, 32];
    let blob = Entry { mime: vec!["application/octet-stream".to_string()], body: ClipBody::Data(bytes.clone()) };
    let b = g.push(blob, 1001);
    assert_eq!((a, b), (0, 1));
    drop(g);
    let g2 = store.group("history", 5000).expect("the bucket reopens");
    let recs = g2.records();
    assert_eq!(recs.len(), 2, "both records were reloaded from disk");
    let first = g2.get(0).expect("the text record is back");
    assert_eq!(first.last_used, 1000);
    match first.entry.body {
        ClipBody::Text(t) => assert_eq!(t, "alpha"),
        ClipBody::Data(_) => panic!("expected a text body"),
    }
    let second = g2.get(1).expect("the data record is back");
    match second.entry.body {
        ClipBody::Data(d) => assert_eq!(d, bytes),
        ClipBody::Text(_) => panic!("expected a data body"),
    }
    assert!(store.groups().iter().any(|n| n == "history"));
}

#[test]
fn disk_delete_persists() {
    let store = Disk::new("/tmp/wclipd_store_check_delete").expect("the store opens");
    let mut g = store.group("g", 999).expect("the bucket opens");
    g.clear();
    g.push(text("keep"), 1000);
    g.push(text("drop"), 1001);
    g.delete(1);
    drop(g);
    let g2 = store.group("g", 5000).expect("the bucket reopens");
    assert_eq!(g2.records().len(), 1);
    assert!(g2.get(1).is_none());
    assert!(g2.get(0).is_some());
}
