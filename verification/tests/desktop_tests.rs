use finick::desktop::{lines_of, parse_desktop, pick_icon};

#[test]
fn name_takes_everything_after_first_equals() {
    let info = parse_desktop("Name=A=B=C\n");
    assert_eq!(info.name, Some(String::from("A=B=C")));
}

#[test]
fn icon_takes_everything_after_last_equals() {
    let info = parse_desktop("Icon=a=b\nName=x\n");
    assert_eq!(info.icon_key, Some(String::from("b")));
    assert_eq!(info.name, Some(String::from("x")));
}

#[test]
fn first_matching_line_wins() {
    let info = parse_desktop("Name=first\nName=second\nIcon=one\nIcon=two\n");
    assert_eq!(info.name, Some(String::from("first")));
    assert_eq!(info.icon_key, Some(String::from("one")));
}

#[test]
fn missing_keys_yield_nothing() {
    let info = parse_desktop("Comment=hello\nExec=/bin/x\n");
    assert_eq!(info.name, None);
    assert_eq!(info.icon_key, None);
}

#[test]
fn prefix_must_start_the_line() {
    let info = parse_desktop("GenericName=g\nX-Name=y\n");
    assert_eq!(info.name, None);
}

#[test]
fn carriage_returns_are_stripped() {
    let info = parse_desktop("Name=win\r\nIcon=ic\r\n");
    assert_eq!(info.name, Some(String::from("win")));
    assert_eq!(info.icon_key, Some(String::from("ic")));
}

#[test]
fn lines_drop_trailing_empty_piece() {
    assert_eq!(lines_of("a\nb\n"), vec![String::from("a"), String::from("b")]);
    assert_eq!(lines_of("a\nb"), vec![String::from("a"), String::from("b")]);
    assert_eq!(lines_of(""), Vec::<String>::new());
    assert_eq!(lines_of("\n"), vec![String::from("")]);
}

#[test]
fn pick_icon_takes_first_prefix_match() {
    let names = vec![
        String::from("fir.svg"),
        String::from("firefox.png"),
        String::from("firefox.svg"),
    ];
    assert_eq!(pick_icon("firefox", &names), Some(1));
    assert_eq!(pick_icon("fir", &names), Some(0));
    assert_eq!(pick_icon("chrome", &names), None);
    assert_eq!(pick_icon("", &names), Some(0));
}
