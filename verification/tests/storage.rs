use lib::{
    JsonValue, Project, buffer_from_text, buffer_to_json, json_object_to_project, json_to_buffer,
    json_to_profile_projects, json_to_projects, parse_json, profile_from_text, profile_to_json,
    projects_from_text, projects_to_json,
};

fn project(alias: &str, path: &str) -> Project {
    Project { alias: alias.to_string(), path: path.to_string() }
}

fn pairs(ps: &[Project]) -> Vec<(String, String)> {
    ps.iter().map(|p| (p.alias.clone(), p.path.clone())).collect()
}

#[test]
fn writes_an_empty_list() {
    assert_eq!(projects_to_json(&[]), "[\n]");
}

#[test]
fn writes_one_project_per_line() {
    let ps = vec![project("a", "/x"), project("b", "$HOME/y")];
    assert_eq!(
        projects_to_json(&ps),
        "[\n  {\"alias\": \"a\", \"path\": \"/x\"},\n  {\"alias\": \"b\", \"path\": \"$HOME/y\"}\n]"
    );
}

#[test]
fn writes_escaped_text() {
    let ps = vec![project("q\"b\\", "l1\nl2\tt\rr")];
    assert_eq!(
        projects_to_json(&ps),
        "[\n  {\"alias\": \"q\\\"b\\\\\", \"path\": \"l1\\nl2\\tt\\rr\"}\n]"
    );
}

#[test]
fn writes_a_profile_with_indented_list() {
    let ps = vec![project("a", "/x")];
    assert_eq!(
        profile_to_json(&ps),
        "{\n  \"projects\":   [\n    {\"alias\": \"a\", \"path\": \"/x\"}\n  ]\n}"
    );
    assert_eq!(profile_to_json(&[]), "{\n  \"projects\":   [\n  ]\n}");
}

#[test]
fn writes_the_buffer() {
    let b = vec!["/a".to_string(), "b\"c".to_string()];
    assert_eq!(buffer_to_json(&b), "[\n  \"/a\",\n  \"b\\\"c\"\n]");
    assert_eq!(buffer_to_json(&[]), "[\n]");
}

#[test]
fn projects_read_back_what_was_written() {
    let ps = vec![
        project("a", "/x"),
        project("we\"ird\\", "/p a/t\th\n\r/é"),
        project("", ""),
    ];
    let text = projects_to_json(&ps);
    let back = projects_from_text(&text).unwrap();
    assert_eq!(pairs(&back), pairs(&ps));
}

#[test]
fn profiles_read_back_what_was_written() {
    let ps = vec![project("a", "/x"), project("b", "$HOME/'q'")];
    let text = profile_to_json(&ps);
    let back = profile_from_text(&text).unwrap();
    assert_eq!(pairs(&back), pairs(&ps));
    assert!(profile_from_text(&profile_to_json(&[])).unwrap().is_empty());
}

#[test]
fn buffer_reads_back_what_was_written() {
    let b = vec!["/a".to_string(), "with \"quotes\"\n".to_string(), "\\".to_string()];
    let back = buffer_from_text(&buffer_to_json(&b)).unwrap();
    assert_eq!(back, b);
}

#[test]
fn empty_files_hold_nothing() {
    assert!(projects_from_text("").unwrap().is_empty());
    assert!(buffer_from_text("").unwrap().is_empty());
}

#[test]
fn surrounding_whitespace_is_ignored() {
    assert!(projects_from_text(" \n\t ").unwrap().is_empty());
    assert!(buffer_from_text("\r\n").unwrap().is_empty());
    let ps = projects_from_text("\n  [{\"alias\": \"a\", \"path\": \"/p\"}]\n\n").unwrap();
    assert_eq!(ps.len(), 1);
    assert_eq!(ps[0].alias, "a");
    assert_eq!(ps[0].path, "/p");
    let b = buffer_from_text("\u{a0}[\"/x\"] \n").unwrap();
    assert_eq!(b, vec!["/x".to_string()]);
    let prof = profile_from_text("\n{\"projects\": []}\n").unwrap();
    assert!(prof.is_empty());
    assert_eq!(profile_from_text(" \n ").unwrap_err(), "parse error in profile: unexpected EOF");
}

#[test]
fn reports_parse_errors_with_the_file() {
    assert_eq!(
        projects_from_text("[1]").unwrap_err(),
        "parse error in projects.json: unexpected char '1'"
    );
    assert_eq!(
        buffer_from_text("x").unwrap_err(),
        "parse error in buffer.json: unexpected char 'x'"
    );
    assert_eq!(profile_from_text("").unwrap_err(), "parse error in profile: unexpected EOF");
}

#[test]
fn reports_wrong_shapes() {
    assert_eq!(projects_from_text("{}").unwrap_err(), "expected JSON array");
    assert_eq!(
        projects_from_text("[\"x\"]").unwrap_err(),
        "expected JSON object for project entry"
    );
    assert_eq!(
        projects_from_text("[{\"alias\": \"a\"}]").unwrap_err(),
        "missing 'path' field"
    );
    assert_eq!(
        projects_from_text("[{\"path\": \"p\", \"alias\": null}]").unwrap_err(),
        "missing 'alias' field"
    );
    assert_eq!(buffer_from_text("{}").unwrap_err(), "buffer.json must be a JSON array");
    assert_eq!(profile_from_text("[]").unwrap_err(), "expected JSON object for profile");
    assert_eq!(
        profile_from_text("{\"other\": []}").unwrap_err(),
        "profile JSON missing 'projects' key"
    );
    assert_eq!(profile_from_text("{\"projects\": null}").unwrap_err(), "expected JSON array");
}

#[test]
fn the_first_bad_item_decides() {
    let v = parse_json("[{\"alias\": \"a\"}, \"x\"]").unwrap();
    assert_eq!(json_to_projects(&v).unwrap_err(), "missing 'path' field");
}

#[test]
fn the_last_string_field_wins() {
    let v = parse_json(
        "{\"alias\": \"a\", \"alias\": \"b\", \"alias\": null, \"path\": \"p\", \"x\": \"y\"}",
    )
    .unwrap();
    let p = json_object_to_project(&v).unwrap();
    assert_eq!(p.alias, "b");
    assert_eq!(p.path, "p");
}

#[test]
fn the_first_projects_key_wins() {
    let v = parse_json("{\"projects\": [], \"projects\": null}").unwrap();
    assert!(json_to_profile_projects(&v).unwrap().is_empty());
}

#[test]
fn buffer_keeps_only_strings() {
    let v = parse_json("[\"a\", null, [], \"b\"]").unwrap();
    assert_eq!(json_to_buffer(&v).unwrap(), vec!["a".to_string(), "b".to_string()]);
    assert_eq!(json_to_buffer(&JsonValue::Null).unwrap_err(), "buffer.json must be a JSON array");
}
