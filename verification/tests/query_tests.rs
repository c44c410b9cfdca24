use finick::records::{Entry, Request, SearchResult};
use finick::query::{query_stored, respond, scan_path, search, ScanCandidate};
use finick::store::Store;

fn entry(name: &str, path: &str, depth: usize, t: i64, exec: bool) -> Entry {
    Entry {
        name: String::from(name),
        path: String::from(path),
        depth,
        last_accessed: t,
        executable: exec,
        desktop: false,
        icon: None,
    }
}

fn cand(name: &str, path: &str, is_file: bool, exec: bool) -> ScanCandidate {
    ScanCandidate {
        name: String::from(name),
        path: String::from(path),
        is_file,
        executable: exec,
    }
}

#[test]
fn executables_precede_other_matches() {
    let mut s = Store::new();
    s.ingest(entry("firesale.txt", "/docs/firesale.txt", 1, 999, false));
    s.ingest(entry("firefox", "/usr/bin/firefox", 1, 10, true));
    let r = query_stored(&s, "fire");
    assert_eq!(r.len(), 2);
    assert_eq!(r[0].path, "/usr/bin/firefox");
    assert!(r[0].is_executable);
    assert_eq!(r[1].path, "/docs/firesale.txt");
}

#[test]
fn recency_orders_equal_executability() {
    let mut s = Store::new();
    s.ingest(entry("fa", "/a/fa", 1, 100, false));
    s.ingest(entry("fb", "/b/fb", 1, 900, false));
    let r = query_stored(&s, "f");
    assert_eq!(r.len(), 2);
    assert_eq!(r[0].path, "/b/fb");
    assert_eq!(r[1].path, "/a/fa");
}

#[test]
fn shallower_rows_first_on_tied_recency() {
    let mut s = Store::new();
    s.ingest(entry("fx", "/deep/sub/fx", 3, 50, false));
    s.ingest(entry("fy", "/top/fy", 1, 50, false));
    let r = query_stored(&s, "f");
    assert_eq!(r[0].path, "/top/fy");
    assert_eq!(r[1].path, "/deep/sub/fx");
}

#[test]
fn residue_breaks_remaining_ties() {
    // Equal executable flag, recency and depth: the name leaving the
    // shortest residue after removing the query comes first.
    let mut s = Store::new();
    s.ingest(entry("abcab", "/x/one", 1, 5, false));
    s.ingest(entry("ab", "/x/two", 1, 5, false));
    let r = query_stored(&s, "ab");
    // "ab" leaves residue "" (length 0); "abcab" leaves "c" (length 1).
    assert_eq!(r[0].path, "/x/two");
    assert_eq!(r[1].path, "/x/one");
}

#[test]
fn stored_match_is_ascii_case_insensitive() {
    let mut s = Store::new();
    s.ingest(entry("FireFox", "/usr/bin/FireFox", 1, 5, true));
    let r = query_stored(&s, "fire");
    assert_eq!(r.len(), 1);
    assert_eq!(r[0].name, "FireFox");
}

#[test]
fn path_matches_count_too() {
    let mut s = Store::new();
    s.ingest(entry("tool", "/opt/fire/tool", 1, 5, false));
    let r = query_stored(&s, "fire");
    assert_eq!(r.len(), 1);
}

#[test]
fn stored_lookup_is_limited_to_one_hundred() {
    let mut s = Store::new();
    let mut i: i64 = 0;
    while i < 130 {
        let path = format!("/p/f{}", i);
        s.ingest(entry("f", &path, 1, i, false));
        i += 1;
    }
    let r = query_stored(&s, "f");
    assert_eq!(r.len(), 100);
}

#[test]
fn forged_empty_query_matches_all_rows_up_to_limit() {
    let mut s = Store::new();
    let mut i: i64 = 0;
    while i < 120 {
        let path = format!("/q/g{}", i);
        s.ingest(entry("g", &path, 1, i, false));
        i += 1;
    }
    let r = search("", &s, &Vec::new());
    assert_eq!(r.len(), 100);
}

#[test]
fn short_query_yields_nothing() {
    let mut s = Store::new();
    s.ingest(entry("abcd", "/abcd", 0, 1, true));
    let cands = vec![cand("abcx", "/bin/abcx", true, true)];
    let r = respond(&Request { query: String::from("ab") }, &s, &cands);
    assert!(r.is_empty());
    let r1 = respond(&Request { query: String::from("") }, &s, &cands);
    assert!(r1.is_empty());
    let r2 = respond(&Request { query: String::from("abc") }, &s, &cands);
    assert_eq!(r2.len(), 2);
}

#[test]
fn live_scan_produces_uncached_executable() {
    // The store only has non-executables matching "ls"; /usr/bin/ls comes
    // from the live scan.
    let mut s = Store::new();
    s.ingest(entry("lsnotes.txt", "/docs/lsnotes.txt", 1, 5, false));
    let cands = vec![cand("ls", "/usr/bin/ls", true, true)];
    let r = search("ls", &s, &cands);
    assert_eq!(r.len(), 2);
    assert_eq!(r[0].path, "/docs/lsnotes.txt");
    assert_eq!(r[1].path, "/usr/bin/ls");
    assert!(r[1].is_executable);
    assert!(!r[1].is_desktop);
    assert_eq!(r[1].icon, None);
}

#[test]
fn live_scan_skips_paths_phase_one_produced() {
    let mut s = Store::new();
    s.ingest(entry("ls", "/usr/bin/ls", 1, 5, true));
    let cands = vec![cand("ls", "/usr/bin/ls", true, true)];
    let r = search("ls", &s, &cands);
    assert_eq!(r.len(), 1);
}

#[test]
fn live_scan_filters_kind_and_bit_and_name() {
    let seen: Vec<String> = Vec::new();
    let cands = vec![
        cand("also", "/b/also", true, true),
        cand("als", "/b/als", false, true),
        cand("balsa", "/b/balsa", true, false),
        cand("other", "/b/other", true, true),
        cand("ALS", "/b/ALS", true, true),
    ];
    let r = scan_path("als", &seen, &cands);
    // Exact (case-sensitive) basename match, regular files with the bit set.
    assert_eq!(r.len(), 1);
    assert_eq!(r[0].path, "/b/also");
}

#[test]
fn results_carry_row_fields() {
    let mut s = Store::new();
    s.ingest(Entry {
        name: String::from("Fire Fox"),
        path: String::from("/apps/ff.desktop"),
        depth: 1,
        last_accessed: 5,
        executable: false,
        desktop: true,
        icon: Some(String::from("/icons/firefox.png")),
    });
    let r = query_stored(&s, "fox");
    assert_eq!(
        r,
        vec![SearchResult {
            name: String::from("Fire Fox"),
            path: String::from("/apps/ff.desktop"),
            is_desktop: true,
            is_executable: false,
            icon: Some(String::from("/icons/firefox.png")),
        }]
    );
}
