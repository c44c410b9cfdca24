use finick::records::Entry;
use finick::store::Store;

fn entry(name: &str, path: &str, depth: usize, t: i64, exec: bool) -> Entry {
    Entry {
        name: String::from(name),
        path: String::from(path),
        depth,
        last_accessed: t,
        executable: exec,
        desktop: false,
        icon: None,
    }
}

#[test]
fn ingest_new_path_writes() {
    let mut s = Store::new();
    assert!(s.ingest(entry("a", "/x/a", 0, 100, false)));
    assert_eq!(s.row_count(), 1);
    assert_eq!(s.lookup_last_accessed("/x/a"), Some(100));
}

#[test]
fn at_most_one_row_per_path() {
    let mut s = Store::new();
    s.ingest(entry("a", "/x/a", 0, 100, false));
    s.ingest(entry("a", "/x/a", 0, 300, false));
    s.ingest(entry("a", "/x/a", 0, 700, true));
    assert_eq!(s.row_count(), 1);
    let rows = s.rows_snapshot();
    assert_eq!(rows.len(), 1);
    assert_eq!(rows[0].last_accessed, 700);
    assert!(rows[0].executable);
}

#[test]
fn reindex_guard_scenario() {
    // Ingest at t=100; re-ingest at t=140 is a no-op; at t=161 it writes.
    let mut s = Store::new();
    assert!(s.ingest(entry("p", "/p", 0, 100, false)));
    assert!(!s.ingest(entry("p", "/p", 0, 140, false)));
    assert_eq!(s.lookup_last_accessed("/p"), Some(100));
    assert!(s.ingest(entry("p", "/p", 0, 161, false)));
    assert_eq!(s.lookup_last_accessed("/p"), Some(161));
}

#[test]
fn reindex_guard_exact_threshold() {
    let mut s = Store::new();
    s.ingest(entry("p", "/p", 0, 100, false));
    // t = t0 + 60 exactly: the guard allows the write.
    assert!(s.ingest(entry("p", "/p", 0, 160, false)));
    assert_eq!(s.lookup_last_accessed("/p"), Some(160));
}

#[test]
fn lookup_missing_path() {
    let s = Store::new();
    assert_eq!(s.lookup_last_accessed("/nowhere"), None);
}

#[test]
fn delete_prefix_removes_subtree() {
    let mut s = Store::new();
    s.ingest(entry("a", "/tmp/demo/a", 1, 10, false));
    s.ingest(entry("b", "/tmp/demo/sub/b", 2, 10, false));
    s.ingest(entry("c", "/tmp/other/c", 1, 10, false));
    s.delete_prefix("/tmp/demo");
    assert_eq!(s.row_count(), 1);
    assert_eq!(s.lookup_last_accessed("/tmp/other/c"), Some(10));
    assert_eq!(s.lookup_last_accessed("/tmp/demo/a"), None);
}

#[test]
fn delete_prefix_is_idempotent() {
    let mut s1 = Store::new();
    s1.ingest(entry("a", "/d/a", 1, 10, false));
    s1.ingest(entry("b", "/e/b", 1, 10, false));
    s1.delete_prefix("/d");
    let once = s1.rows_snapshot();
    s1.delete_prefix("/d");
    let twice = s1.rows_snapshot();
    assert_eq!(once, twice);
    assert_eq!(once.len(), 1);
}

#[test]
fn create_then_remove_leaves_no_entry() {
    let mut s = Store::new();
    s.ingest(entry("keep", "/keep/x", 1, 10, false));
    let before = s.rows_snapshot();
    s.ingest(entry("new", "/fresh/new.txt", 1, 10, false));
    s.delete_prefix("/fresh/new.txt");
    let after = s.rows_snapshot();
    assert_eq!(before, after);
}

#[test]
fn upsert_replaces_by_path() {
    let mut s = Store::new();
    s.upsert(entry("old", "/x", 0, 1, false));
    s.upsert(entry("new", "/x", 0, 2, true));
    let rows = s.rows_snapshot();
    assert_eq!(rows.len(), 1);
    assert_eq!(rows[0].name, "new");
    assert_eq!(rows[0].last_accessed, 2);
}
