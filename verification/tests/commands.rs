use lib::{
    Project, ProfileChoice, activate_project, cd_command, is_active, is_profile_file, list_output, numbered_line,
    paste_command, pop_buffer, profile_files, push_buffer, register_project, remove_project,
    resolve_alias_or_index, select_profile, update_target,
};

fn project(alias: &str, path: &str) -> Project {
    Project { alias: alias.to_string(), path: path.to_string() }
}

fn aliases(ps: &[Project]) -> Vec<String> {
    ps.iter().map(|p| p.alias.clone()).collect()
}

#[test]
fn resolves_by_alias() {
    let ps = vec![project("a", "/x"), project("b", "/y")];
    let (i, p) = resolve_alias_or_index(&ps, "b").unwrap();
    assert_eq!(i, 1);
    assert_eq!(p.path, "/y");
}

#[test]
fn resolves_by_number_from_one() {
    let ps = vec![project("a", "/x"), project("b", "/y")];
    let (i, p) = resolve_alias_or_index(&ps, "1").unwrap();
    assert_eq!(i, 0);
    assert_eq!(p.alias, "a");
    assert_eq!(resolve_alias_or_index(&ps, "+2").unwrap().0, 1);
    assert!(resolve_alias_or_index(&ps, "0").is_none());
    assert!(resolve_alias_or_index(&ps, "3").is_none());
    assert!(resolve_alias_or_index(&ps, "zz").is_none());
}

#[test]
fn an_alias_wins_over_a_number() {
    let ps = vec![project("x", "/x"), project("1", "/one")];
    let (i, p) = resolve_alias_or_index(&ps, "1").unwrap();
    assert_eq!(i, 1);
    assert_eq!(p.path, "/one");
}

#[test]
fn registers_at_the_end() {
    let mut ps = vec![project("a", "/x")];
    assert_eq!(register_project(&mut ps, "b", "/y"), Ok(()));
    assert_eq!(aliases(&ps), vec!["a", "b"]);
    assert_eq!(ps[1].path, "/y");
}

#[test]
fn refuses_a_taken_alias() {
    let mut ps = vec![project("a", "/x")];
    assert_eq!(
        register_project(&mut ps, "a", "/z"),
        Err("alias 'a' already exists".to_string())
    );
    assert_eq!(ps.len(), 1);
    assert_eq!(ps[0].path, "/x");
}

#[test]
fn register_then_resolve_finds_the_new_bookmark() {
    let mut ps = vec![project("a", "/x"), project("b", "/y")];
    register_project(&mut ps, "c", "/z").unwrap();
    let (i, p) = resolve_alias_or_index(&ps, "c").unwrap();
    assert_eq!(i, 2);
    assert_eq!(p.path, "/z");
}

#[test]
fn register_then_remove_restores_the_list() {
    let mut ps = vec![project("a", "/x"), project("b", "/y")];
    register_project(&mut ps, "c", "/z").unwrap();
    let removed = remove_project(&mut ps, "c").unwrap();
    assert_eq!(removed.alias, "c");
    assert_eq!(removed.path, "/z");
    assert_eq!(aliases(&ps), vec!["a", "b"]);
}

#[test]
fn removes_by_number() {
    let mut ps = vec![project("a", "/x"), project("b", "/y"), project("c", "/z")];
    let removed = remove_project(&mut ps, "2").unwrap();
    assert_eq!(removed.alias, "b");
    assert_eq!(aliases(&ps), vec!["a", "c"]);
}

#[test]
fn remove_reports_an_unknown_argument() {
    let mut ps = vec![project("a", "/x")];
    assert_eq!(
        remove_project(&mut ps, "9").unwrap_err(),
        "no project found for '9'"
    );
    assert_eq!(ps.len(), 1);
}

#[test]
fn activation_prints_cd_to_the_resolved_path() {
    let ps = vec![project("w", "$HOME/code/it's")];
    let (line, alias) = activate_project(&ps, "w", "/home/u").unwrap();
    assert_eq!(line, "cd '/home/u/code/it'\\''s'");
    assert_eq!(alias, "w");
    assert_eq!(
        activate_project(&ps, "zz", "/home/u").unwrap_err(),
        "no project found for 'zz'"
    );
}

#[test]
fn resolved_path_replaces_every_home_marker() {
    assert_eq!(project("a", "$HOME/x$HOME").resolved_path("/h"), "/h/x/h");
    assert_eq!(project("a", "/abs").resolved_path("/h"), "/abs");
    assert_eq!(project("a", "$HOM/x").resolved_path("/h"), "$HOM/x");
    assert_eq!(project("a", "$HOME/x").resolved_path(""), "/x");
    assert_eq!(project("a", "$$HOMEE").resolved_path("H"), "$HE");
}

#[test]
fn lists_with_the_active_marker() {
    let ps = vec![project("a", "/x"), project("b", "$HOME/y")];
    assert_eq!(
        list_output(&ps, Some("b"), "/h"),
        vec!["  1  a -> /x".to_string(), "* 2  b -> /h/y".to_string()]
    );
    assert_eq!(
        list_output(&ps, None, "/h"),
        vec!["  1  a -> /x".to_string(), "  2  b -> /h/y".to_string()]
    );
}

#[test]
fn lists_a_hint_when_empty() {
    assert_eq!(
        list_output(&[], None, "/h"),
        vec!["No projects registered. Use: projenv init <alias>".to_string()]
    );
}

#[test]
fn numbers_listing_lines() {
    assert_eq!(numbered_line(3, "work"), "  3  work");
    assert_eq!(numbered_line(1024, "x"), "  1024  x");
    assert_eq!(numbered_line(0, ""), "  0  ");
}

#[test]
fn tells_the_active_bookmark() {
    let p = project("a", "/x");
    assert!(is_active(Some("a"), &p));
    assert!(!is_active(Some("b"), &p));
    assert!(!is_active(None, &p));
}

#[test]
fn selects_a_profile_by_number_or_name() {
    let profiles = vec!["/p/a.json".to_string(), "/p/b.json".to_string()];
    match select_profile(&profiles, "2", "/h").unwrap() {
        ProfileChoice::Listed(p) => assert_eq!(p, "/p/b.json"),
        ProfileChoice::Named(p) => panic!("{}", p),
    }
    match select_profile(&profiles, "work", "/h").unwrap() {
        ProfileChoice::Named(p) => assert_eq!(p, "/h/.projenv/profiles/work.json"),
        ProfileChoice::Listed(p) => panic!("{}", p),
    }
    assert_eq!(
        select_profile(&profiles, "3", "/h").err().unwrap(),
        "profile index 3 out of range (1-2)"
    );
    assert_eq!(
        select_profile(&profiles, "0", "/h").err().unwrap(),
        "profile index 0 out of range (1-2)"
    );
}

#[test]
fn chooses_the_profile_to_update() {
    let one = vec!["/p/a.json".to_string()];
    let two = vec!["/p/a.json".to_string(), "/p/b.json".to_string()];
    assert_eq!(update_target(Some("w"), &two, "/h"), Ok("/h/.projenv/profiles/w.json".to_string()));
    assert_eq!(update_target(None, &one, "/h"), Ok("/p/a.json".to_string()));
    assert_eq!(
        update_target(None, &two, "/h"),
        Err("specify a profile name: projenv profile update <name>".to_string())
    );
    assert_eq!(
        update_target(None, &[], "/h"),
        Err("specify a profile name: projenv profile update <name>".to_string())
    );
}

#[test]
fn paste_takes_the_last_entry() {
    let mut b = vec!["a".to_string(), "b".to_string()];
    assert_eq!(pop_buffer(&mut b), Ok("b".to_string()));
    assert_eq!(b, vec!["a".to_string()]);
    let mut empty: Vec<String> = Vec::new();
    assert_eq!(pop_buffer(&mut empty), Err("buffer is empty".to_string()));
}

#[test]
fn paste_undoes_cp() {
    let mut b = vec!["a".to_string()];
    push_buffer(&mut b, "/tmp/new");
    assert_eq!(pop_buffer(&mut b), Ok("/tmp/new".to_string()));
    assert_eq!(b, vec!["a".to_string()]);
}

#[test]
fn writes_shell_lines() {
    assert_eq!(paste_command("/tmp/a b"), "cp '/tmp/a b' .");
    assert_eq!(cd_command("/x"), "cd '/x'");
}

#[test]
fn picks_profile_files_in_order() {
    let names: Vec<String> = ["work.json", ".json", "b.txt", "a.json", "a.b.json", "Z.json", "x.JSON", "json"]
        .iter()
        .map(|s| s.to_string())
        .collect();
    assert_eq!(
        profile_files(&names),
        vec!["Z.json".to_string(), "a.b.json".to_string(), "a.json".to_string(), "work.json".to_string()]
    );
    assert!(profile_files(&[]).is_empty());
}

#[test]
fn tells_profile_files_like_path_extension() {
    for name in ["work.json", ".json", "a.json.bak", "..json", "x.JSON", "json", "a.b.json"] {
        let expected = std::path::Path::new(name)
            .extension()
            .map(|e| e == "json")
            .unwrap_or(false);
        assert_eq!(is_profile_file(&name.to_string()), expected, "{}", name);
    }
}

#[test]
fn the_listed_number_activates_that_bookmark() {
    let ps: Vec<Project> =
        (0..12).map(|i| project(&format!("p{}", i), &format!("/d{}", i))).collect();
    let lines = list_output(&ps, None, "/h");
    for (i, line) in lines.iter().enumerate() {
        let number = line.split_whitespace().next().unwrap();
        let (k, p) = resolve_alias_or_index(&ps, number).unwrap();
        assert_eq!(k, i);
        assert_eq!(p.alias, format!("p{}", i));
    }
}

#[test]
fn a_removed_alias_names_nothing_left() {
    let mut ps = vec![project("a", "/x"), project("b", "/y"), project("c", "/z")];
    let gone = remove_project(&mut ps, "2").unwrap();
    assert_eq!(gone.alias, "b");
    assert_eq!(aliases(&ps), vec!["a".to_string(), "c".to_string()]);
    assert!(resolve_alias_or_index(&ps, "b").is_none());
    let mut seen = aliases(&ps);
    seen.dedup();
    assert_eq!(seen.len(), ps.len());
}
