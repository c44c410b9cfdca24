use finick::pipeline::{ingest_all, to_entry};
use finick::records::Entry;
use finick::store::Store;
use finick::walk::{walk, FsNode};
use finick::watch::{apply_remove, handle_event, WatchAction, WatchEventKind};

fn entry(name: &str, path: &str, t: i64) -> Entry {
    Entry {
        name: String::from(name),
        path: String::from(path),
        depth: 1,
        last_accessed: t,
        executable: false,
        desktop: false,
        icon: None,
    }
}

#[test]
fn events_map_to_actions() {
    let paths = vec![String::from("/tmp/demo/new.txt")];
    assert_eq!(
        handle_event(WatchEventKind::Create, paths.clone()),
        WatchAction::Reindex(paths.clone())
    );
    assert_eq!(
        handle_event(WatchEventKind::Remove, paths.clone()),
        WatchAction::DeletePrefixes(paths)
    );
    assert_eq!(handle_event(WatchEventKind::Other, Vec::new()), WatchAction::Ignore);
}

#[test]
fn create_then_directory_remove() {
    // A created file appears after one walk cycle over its path; a later
    // remove event for the directory deletes it and its siblings by prefix.
    let mut store = Store::new();
    store.ingest(entry("old", "/tmp/demo/old.txt", 5));
    store.ingest(entry("far", "/elsewhere/far", 5));

    let created = FsNode::Dir {
        name: String::from("demo"),
        path: String::from("/tmp/demo"),
        children: vec![FsNode::File {
            name: String::from("new.txt"),
            path: String::from("/tmp/demo/new.txt"),
            executable: false,
            content: None,
        }],
    };
    let items = walk(&created, 0, 70);
    let mut entries = Vec::new();
    for it in items {
        entries.push(to_entry(it, None));
    }
    ingest_all(&mut store, entries);
    assert_eq!(store.lookup_last_accessed("/tmp/demo/new.txt"), Some(70));

    apply_remove(&mut store, &vec![String::from("/tmp/demo/")]);
    assert_eq!(store.lookup_last_accessed("/tmp/demo/new.txt"), None);
    assert_eq!(store.lookup_last_accessed("/tmp/demo/old.txt"), None);
    assert_eq!(store.lookup_last_accessed("/elsewhere/far"), Some(5));
}

#[test]
fn remove_handler_is_idempotent() {
    let mut store = Store::new();
    store.ingest(entry("a", "/d/a", 1));
    store.ingest(entry("b", "/d/b", 1));
    store.ingest(entry("c", "/k/c", 1));
    let paths = vec![String::from("/d/a"), String::from("/d/b")];
    apply_remove(&mut store, &paths);
    let once = store.rows_snapshot();
    apply_remove(&mut store, &paths);
    let twice = store.rows_snapshot();
    assert_eq!(once, twice);
    assert_eq!(once.len(), 1);
}

#[test]
fn repeat_create_events_are_idempotent() {
    // The de-dup guard makes repeated create events no-ops within the
    // re-index threshold.
    let mut store = Store::new();
    let e = entry("n", "/w/n", 100);
    ingest_all(&mut store, vec![e]);
    let first = store.rows_snapshot();
    ingest_all(&mut store, vec![entry("n", "/w/n", 130)]);
    let second = store.rows_snapshot();
    assert_eq!(first, second);
}
