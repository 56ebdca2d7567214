use lib::{
    WalkStep, active_file, buffer_file, escape_json_str, is_absolute_path, join_path,
    parse_usize, profile_path, profiles_dir, projects_file, shell_quote, state_dir,
    trim_text, walk_up_for_file,
};

#[test]
fn joins_paths_like_path_join() {
    assert_eq!(join_path("/home/u", ".projenv"), "/home/u/.projenv");
    assert_eq!(join_path("/home/u/", "x"), "/home/u/x");
    assert_eq!(join_path("", "x"), "x");
    assert_eq!(join_path("/a", "/b"), "/b");
    assert_eq!(join_path("/a", ""), "/a/");
}

#[test]
fn places_state_files_under_home() {
    assert_eq!(state_dir("/home/u"), "/home/u/.projenv");
    assert_eq!(state_dir("."), "./.projenv");
    assert_eq!(projects_file("/h"), "/h/.projenv/projects.json");
    assert_eq!(active_file("/h"), "/h/.projenv/active");
    assert_eq!(profiles_dir("/h"), "/h/.projenv/profiles");
    assert_eq!(buffer_file("/h/"), "/h/.projenv/buffer.json");
    assert_eq!(profile_path("/h", "work"), "/h/.projenv/profiles/work.json");
    assert_eq!(profile_path("/h", "/tmp/p"), "/tmp/p.json");
}

#[test]
fn tells_absolute_paths() {
    assert!(is_absolute_path("/x"));
    assert!(!is_absolute_path("x/y"));
    assert!(!is_absolute_path(""));
}

#[test]
fn walks_up_to_the_parent() {
    match walk_up_for_file("/a/b", false) {
        WalkStep::Up(p) => assert_eq!(p, "/a"),
        _ => panic!("expected a step up"),
    }
    match walk_up_for_file("/a", false) {
        WalkStep::Up(p) => assert_eq!(p, "/"),
        _ => panic!("expected a step up"),
    }
    assert!(matches!(walk_up_for_file("/", false), WalkStep::NotFound));
    match walk_up_for_file("/a/b", true) {
        WalkStep::Found(d) => assert_eq!(d, "/a/b"),
        _ => panic!("expected the directory itself"),
    }
}

#[test]
fn escapes_json_text() {
    assert_eq!(escape_json_str("a\"b\\c\nd\re\tf/"), "a\\\"b\\\\c\\nd\\re\\tf/");
    assert_eq!(escape_json_str(""), "");
}

#[test]
fn quotes_for_the_shell() {
    assert_eq!(shell_quote("it's"), "'it'\\''s'");
    assert_eq!(shell_quote(""), "''");
    assert_eq!(shell_quote("a b"), "'a b'");
}

#[test]
fn parses_unsigned_numbers() {
    assert_eq!(parse_usize("12"), Some(12));
    assert_eq!(parse_usize("007"), Some(7));
    assert_eq!(parse_usize("+7"), Some(7));
    assert_eq!(parse_usize(""), None);
    assert_eq!(parse_usize("+"), None);
    assert_eq!(parse_usize("-1"), None);
    assert_eq!(parse_usize("1a"), None);
    assert_eq!(parse_usize(" 1"), None);
    assert_eq!(parse_usize(&usize::MAX.to_string()), Some(usize::MAX));
    assert_eq!(parse_usize(&format!("{}0", usize::MAX)), None);
}

#[test]
fn parses_like_std() {
    for s in ["0", "9", "10", "+0", "++1", "1_0", "٣", "99999999999999999999999", "42"] {
        assert_eq!(parse_usize(s), s.parse::<usize>().ok(), "{}", s);
    }
}

#[test]
fn trims_unicode_whitespace_at_both_ends() {
    assert_eq!(trim_text("  work\n"), "work");
    assert_eq!(trim_text("\u{a0}\u{3000} a b \t"), "a b");
    assert_eq!(trim_text("   "), "");
    assert_eq!(trim_text(""), "");
    assert_eq!(trim_text("x"), "x");
    assert_eq!(trim_text("\u{85}mid\u{2028}"), "mid");
}

#[test]
fn listed_numbers_read_back() {
    for n in [0usize, 7, 10, 99, 100, 4096, usize::MAX] {
        let line = lib::numbered_line(n, "x");
        let written = line.split_whitespace().next().unwrap();
        assert_eq!(parse_usize(written), Some(n));
    }
}
