use finick::pipeline::{ingest_all, to_entry};
use finick::records::Entry;
use finick::store::Store;
use finick::walk::{
    has_desktop_ext, is_binary_file, is_ignored_dir, mode_is_executable, search_roots, walk,
    FsNode, WalkItem,
};

fn file(name: &str, path: &str, exec: bool) -> FsNode {
    FsNode::File {
        name: String::from(name),
        path: String::from(path),
        executable: exec,
        content: None,
    }
}

fn dir(name: &str, path: &str, children: Vec<FsNode>) -> FsNode {
    FsNode::Dir { name: String::from(name), path: String::from(path), children }
}

fn items_to_entries(items: Vec<WalkItem>) -> Vec<Entry> {
    let mut out = Vec::new();
    for it in items {
        out.push(to_entry(it, None));
    }
    out
}

#[test]
fn ignore_rules() {
    assert!(is_ignored_dir("/home/u/project/node_modules/lodash"));
    assert!(!is_ignored_dir("/home/u/project/node_modules"));
    assert!(is_ignored_dir("/home/u/.config"));
    assert!(is_ignored_dir("/a/.h"));
    assert!(!is_ignored_dir("/a/."));
    assert!(!is_ignored_dir("/plain/dir"));
    assert!(!is_ignored_dir("node_modules"));
    assert!(is_ignored_dir("node_modules/x"));
}

#[test]
fn binary_extensions() {
    assert!(is_binary_file("/bin/tool.exe"));
    assert!(is_binary_file("/bin/tool.EXE"));
    assert!(is_binary_file("/lib/libfoo.so"));
    assert!(is_binary_file("/x/a.o"));
    assert!(is_binary_file("/x/App.Class"));
    assert!(!is_binary_file("/x/readme.txt"));
    assert!(!is_binary_file("/x/noext"));
    assert!(!is_binary_file("/x/.bashrc"));
    assert!(!is_binary_file("/x/archive.tar.gz"));
}

#[test]
fn desktop_extension_is_exact_case() {
    assert!(has_desktop_ext("/usr/share/applications/firefox.desktop"));
    assert!(!has_desktop_ext("/usr/share/applications/firefox.DESKTOP"));
    assert!(!has_desktop_ext("/usr/share/applications/firefox"));
}

#[test]
fn execute_bits() {
    assert!(mode_is_executable(0o755));
    assert!(mode_is_executable(0o100));
    assert!(mode_is_executable(0o010));
    assert!(mode_is_executable(0o001));
    assert!(!mode_is_executable(0o644));
    assert!(!mode_is_executable(0o000));
}

#[test]
fn walk_demo_tree() {
    // /tmp/demo holds a.txt, bin/ls (0755), .hidden/x, node_modules/y/z.
    let tree = dir(
        "demo",
        "/tmp/demo",
        vec![
            file("a.txt", "/tmp/demo/a.txt", false),
            dir(
                "bin",
                "/tmp/demo/bin",
                vec![file("ls", "/tmp/demo/bin/ls", true)],
            ),
            dir(
                ".hidden",
                "/tmp/demo/.hidden",
                vec![file("x", "/tmp/demo/.hidden/x", false)],
            ),
            dir(
                "node_modules",
                "/tmp/demo/node_modules",
                vec![dir(
                    "y",
                    "/tmp/demo/node_modules/y",
                    vec![file("z", "/tmp/demo/node_modules/y/z", false)],
                )],
            ),
        ],
    );
    let items = walk(&tree, 0, 500);
    let mut store = Store::new();
    ingest_all(&mut store, items_to_entries(items));
    let rows = store.rows_snapshot();
    assert_eq!(rows.len(), 2);
    assert_eq!(store.lookup_last_accessed("/tmp/demo/a.txt"), Some(500));
    assert_eq!(store.lookup_last_accessed("/tmp/demo/bin/ls"), Some(500));
    for r in &rows {
        if r.path == "/tmp/demo/bin/ls" {
            assert!(r.executable);
        }
        if r.path == "/tmp/demo/a.txt" {
            assert!(!r.executable);
        }
    }
    assert_eq!(store.lookup_last_accessed("/tmp/demo/.hidden/x"), None);
    assert_eq!(store.lookup_last_accessed("/tmp/demo/node_modules/y/z"), None);
}

#[test]
fn files_directly_inside_node_modules_are_indexed() {
    // The rule `node_modules/.+` prunes subdirectories of node_modules, not
    // the node_modules directory itself, and files are never pruned.
    let tree = dir(
        "p",
        "/p",
        vec![dir(
            "node_modules",
            "/p/node_modules",
            vec![
                file("pkg.json", "/p/node_modules/pkg.json", false),
                dir(
                    "lodash",
                    "/p/node_modules/lodash",
                    vec![file("i.js", "/p/node_modules/lodash/i.js", false)],
                ),
            ],
        )],
    );
    let items = walk(&tree, 0, 1);
    assert_eq!(items.len(), 1);
    assert_eq!(items[0].path, "/p/node_modules/pkg.json");
}

#[test]
fn depth_boundary_five_in_six_out() {
    // A file exactly 5 levels below the root is indexed; 6 levels is not.
    let five = file("f5", "/r/a/b/c/d/e/f5", false);
    let six_dir = dir("f", "/r/a/b/c/d/e/f", vec![file("f6", "/r/a/b/c/d/e/f/f6", false)]);
    let mut node = dir("e", "/r/a/b/c/d/e", vec![five, six_dir]);
    for (name, path) in [
        ("d", "/r/a/b/c/d"),
        ("c", "/r/a/b/c"),
        ("b", "/r/a/b"),
        ("a", "/r/a"),
        ("r", "/r"),
    ] {
        node = dir(name, path, vec![node]);
    }
    let items = walk(&node, 0, 9);
    assert_eq!(items.len(), 1);
    assert_eq!(items[0].path, "/r/a/b/c/d/e/f5");
    assert_eq!(items[0].depth, 5);
}

#[test]
fn symlink_with_executable_target_is_emitted() {
    let tree = dir(
        "d",
        "/d",
        vec![
            FsNode::Symlink {
                name: String::from("go"),
                path: String::from("/d/go"),
                target_executable: true,
            },
            FsNode::Symlink {
                name: String::from("no"),
                path: String::from("/d/no"),
                target_executable: false,
            },
            FsNode::Other { name: String::from("sock"), path: String::from("/d/sock") },
        ],
    );
    let items = walk(&tree, 0, 3);
    assert_eq!(items.len(), 1);
    assert_eq!(items[0].path, "/d/go");
    assert!(items[0].executable);
    assert!(!items[0].desktop);
}

#[test]
fn desktop_file_name_comes_from_descriptor() {
    let content = "Comment=x\nName=Fire Fox\nIcon=firefox\nName=Second\n";
    let tree = dir(
        "apps",
        "/apps",
        vec![FsNode::File {
            name: String::from("ff.desktop"),
            path: String::from("/apps/ff.desktop"),
            executable: false,
            content: Some(String::from(content)),
        }],
    );
    let items = walk(&tree, 0, 7);
    assert_eq!(items.len(), 1);
    assert_eq!(items[0].name, "Fire Fox");
    assert!(items[0].desktop);
    assert_eq!(items[0].icon_key, Some(String::from("firefox")));
}

#[test]
fn desktop_file_without_name_falls_back_to_basename() {
    let tree = dir(
        "apps",
        "/apps",
        vec![FsNode::File {
            name: String::from("x.desktop"),
            path: String::from("/apps/x.desktop"),
            executable: false,
            content: Some(String::from("Icon=z\nComment=c\n")),
        }],
    );
    let items = walk(&tree, 0, 7);
    assert_eq!(items.len(), 1);
    assert_eq!(items[0].name, "x.desktop");
    assert!(items[0].desktop);
    // Without a Name= line the descriptor read fails and the icon is dropped.
    assert_eq!(items[0].icon_key, None);
}

#[test]
fn desktop_file_with_empty_name_falls_back() {
    let tree = dir(
        "apps",
        "/apps",
        vec![FsNode::File {
            name: String::from("y.desktop"),
            path: String::from("/apps/y.desktop"),
            executable: false,
            content: Some(String::from("Name=\nIcon=k\n")),
        }],
    );
    let items = walk(&tree, 0, 7);
    assert_eq!(items[0].name, "y.desktop");
    assert_eq!(items[0].icon_key, Some(String::from("k")));
}

#[test]
fn default_roots() {
    let roots = search_roots("/home/u", Some("/usr/bin:/usr/local/bin"));
    assert_eq!(
        roots,
        vec![
            String::from("/home/u"),
            String::from("/usr/share/applications/"),
            String::from("/usr/local/share/applications/"),
            String::from("/usr/bin"),
            String::from("/usr/local/bin"),
        ]
    );
    let no_path = search_roots("/home/u", None);
    assert_eq!(no_path.len(), 3);
}
