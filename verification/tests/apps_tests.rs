use finick::apps::{config_file_path, config_root_path, icon_cache_path, App, ScanConfig};
use finick::records::{render_line, SearchResult};
use finick::text::{basename_of, contains_substring, extension_of, split_char, str_starts_with};

#[test]
fn app_names() {
    assert_eq!(App::Scan.name(), "Scan");
    assert_eq!(App::IndexService.name(), "IndexService");
    assert_eq!(App::Other(String::from("extra")).name(), "extra");
}

#[test]
fn socket_paths() {
    assert_eq!(App::Scan.socket_path(), "/tmp/Scan.sock");
    assert_eq!(App::IndexService.socket_path(), "/tmp/IndexService.sock");
}

#[test]
fn config_paths() {
    assert_eq!(config_root_path("/home/u"), "/home/u/.config/.finick");
    assert_eq!(
        config_file_path("/home/u", &App::IndexService),
        "/home/u/.config/.finick/IndexService"
    );
    assert_eq!(
        icon_cache_path("/home/u/.config/.finick", "firefox"),
        "/home/u/.config/.finick/icons/firefox.png"
    );
}

#[test]
fn scan_config_default_port() {
    let c = ScanConfig::default();
    assert_eq!(c.port, 3051);
}

fn result(name: &str, path: &str, desktop: bool, exec: bool) -> SearchResult {
    SearchResult {
        name: String::from(name),
        path: String::from(path),
        is_desktop: desktop,
        is_executable: exec,
        icon: None,
    }
}

#[test]
fn printed_lines_carry_sigils() {
    assert_eq!(render_line(&result("Fire", "/a/ff.desktop", true, false)), "@Fire\t/a/ff.desktop");
    assert_eq!(render_line(&result("ls", "/bin/ls", false, true)), "*ls\t/bin/ls");
    assert_eq!(render_line(&result("notes", "/d/notes", false, false)), "notes\t/d/notes");
    // The desktop sigil wins over the executable one.
    assert_eq!(render_line(&result("b", "/b", true, true)), "@b\t/b");
}

#[test]
fn substring_search() {
    assert!(contains_substring("hello world", "lo wo"));
    assert!(contains_substring("abc", ""));
    assert!(!contains_substring("abc", "abcd"));
    assert!(!contains_substring("abc", "ABC"));
}

#[test]
fn basename_and_extension() {
    assert_eq!(basename_of("/usr/bin/firefox"), "firefox");
    assert_eq!(basename_of("plain"), "plain");
    assert_eq!(extension_of("/x/a.tar.gz"), Some(String::from("gz")));
    assert_eq!(extension_of("/x/noext"), None);
    assert_eq!(extension_of("/x/.bashrc"), None);
    assert_eq!(extension_of("/x/dot."), Some(String::from("")));
}

#[test]
fn splitting_on_separators() {
    assert_eq!(split_char("a:b:c", ':'), vec!["a", "b", "c"]);
    assert_eq!(split_char("::", ':'), vec!["", "", ""]);
    assert_eq!(split_char("", ':'), vec![""]);
}

#[test]
fn prefix_tests() {
    assert!(str_starts_with("Name=x", "Name="));
    assert!(!str_starts_with("XName=x", "Name="));
    assert!(str_starts_with("abc", ""));
}
