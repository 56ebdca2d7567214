use vstd::prelude::*;

use crate::json::{Json, JsonValue, parse_json, value_at, lemma_model_items_len, lemma_model_pairs_len, models, pair_models};
use crate::text::{chars_of, same_text, concat_map, escape_char, escape_json_str, escape_text, lemma_concat_map_push, trimmed, trim_text, lemma_trimmed_len};

verus! {

/// A bookmarked directory: a short alias and the path it stands for.
#[derive(Debug, Clone)]
pub struct Project {
    pub alias: String,
    pub path: String,
}

/// Mathematical model of a [`Project`].
pub struct ProjectModel {
    pub alias: Seq<char>,
    pub path: Seq<char>,
}

impl View for Project {
    type V = ProjectModel;

    open spec fn view(&self) -> ProjectModel {
        ProjectModel { alias: self.alias@, path: self.path@ }
    }
}

/// Models of a list of projects.
pub open spec fn project_models(ps: Seq<Project>) -> Seq<ProjectModel> {
    ps.map_values(|p: Project| p@)
}

/// Models of a list of strings.
pub open spec fn string_models(v: Seq<String>) -> Seq<Seq<char>> {
    v.map_values(|s: String| s@)
}

// ---------------------------------------------------------------------------
// The written form.
// ---------------------------------------------------------------------------

/// The key of a project's alias.
pub open spec fn alias_key() -> Seq<char> {
    seq!['a', 'l', 'i', 'a', 's']
}

/// The key of a project's path.
pub open spec fn path_key() -> Seq<char> {
    seq!['p', 'a', 't', 'h']
}

/// The key of a profile's project list.
pub open spec fn projects_key() -> Seq<char> {
    seq!['p', 'r', 'o', 'j', 'e', 'c', 't', 's']
}

/// `t` written as a JSON string, quotes included.
pub open spec fn quoted(t: Seq<char>) -> Seq<char> {
    seq!['"'] + escape_text(t) + seq!['"']
}

/// One project written as a JSON object on one line.
pub open spec fn entry_text(p: ProjectModel) -> Seq<char> {
    seq!['{'] + quoted(alias_key()) + seq![':', ' '] + quoted(p.alias) + seq![',', ' '] + quoted(
        path_key(),
    ) + seq![':', ' '] + quoted(p.path) + seq!['}']
}

/// The comma after item `i` of `n`, if another follows.
pub open spec fn sep(i: int, n: int) -> Seq<char> {
    if i + 1 < n {
        seq![',']
    } else {
        seq![]
    }
}

/// Line `i` of a list of projects, each line indented by `pad` and two spaces.
pub open spec fn project_line(ps: Seq<ProjectModel>, i: int, pad: Seq<char>) -> Seq<char> {
    pad + seq![' ', ' '] + entry_text(ps[i]) + sep(i, ps.len() as int) + seq!['\n']
}

/// The first `n` lines.
pub open spec fn project_lines(ps: Seq<ProjectModel>, n: nat, pad: Seq<char>) -> Seq<char>
    decreases n,
{
    if n == 0 {
        seq![]
    } else {
        project_lines(ps, (n - 1) as nat, pad) + project_line(ps, n - 1, pad)
    }
}

/// A list of projects as a JSON array, one project per line, every line but
/// the first further indented by `pad`.
pub open spec fn projects_layout(ps: Seq<ProjectModel>, pad: Seq<char>) -> Seq<char> {
    seq!['[', '\n'] + project_lines(ps, ps.len(), pad) + pad + seq![']']
}

/// The text that `projects_to_json` writes.
pub open spec fn projects_text(ps: Seq<ProjectModel>) -> Seq<char> {
    projects_layout(ps, seq![])
}

/// What `c` becomes when the lines of a text are indented by two spaces.
pub open spec fn indent_char(c: char) -> Seq<char> {
    if c == '\n' {
        seq!['\n', ' ', ' ']
    } else {
        seq![c]
    }
}

/// `t` with two spaces before each of its lines.
pub open spec fn indent_text(t: Seq<char>) -> Seq<char> {
    seq![' ', ' '] + concat_map(t, |c: char| indent_char(c))
}

/// The text that `profile_to_json` writes.
pub open spec fn profile_text(ps: Seq<ProjectModel>) -> Seq<char> {
    seq!['{', '\n', ' ', ' '] + quoted(projects_key()) + seq![':', ' '] + indent_text(
        projects_text(ps),
    ) + seq!['\n', '}']
}

/// Line `i` of a buffer list.
pub open spec fn buffer_line(b: Seq<Seq<char>>, i: int) -> Seq<char> {
    seq![' ', ' '] + quoted(b[i]) + sep(i, b.len() as int) + seq!['\n']
}

pub open spec fn buffer_lines(b: Seq<Seq<char>>, n: nat) -> Seq<char>
    decreases n,
{
    if n == 0 {
        seq![]
    } else {
        buffer_lines(b, (n - 1) as nat) + buffer_line(b, n - 1)
    }
}

/// The text that `buffer_to_json` writes.
pub open spec fn buffer_text(b: Seq<Seq<char>>) -> Seq<char> {
    seq!['[', '\n'] + buffer_lines(b, b.len()) + seq![']']
}

pub proof fn lemma_escape_plain(t: Seq<char>)
    requires
        forall|i: int| 0 <= i < t.len() ==> escape_char(#[trigger] t[i]) == seq![t[i]],
    ensures
        escape_text(t) == t,
    decreases t.len(),
{
    if t.len() > 0 {
        lemma_escape_plain(t.drop_last());
        assert(t.drop_last() + seq![t.last()] =~= t);
    }
}

pub proof fn lemma_keys_plain()
    ensures
        escape_text(alias_key()) == alias_key(),
        escape_text(path_key()) == path_key(),
        escape_text(projects_key()) == projects_key(),
{
    lemma_escape_plain(alias_key());
    lemma_escape_plain(path_key());
    lemma_escape_plain(projects_key());
}

/// Appends one project written as a JSON object.
fn push_entry(out: &mut String, p: &Project)
    ensures
        final(out)@ == old(out)@ + entry_text(p@),
{
    let ghost before = out@;
    out.append("{\"alias\": \"");
    let a = escape_json_str(p.alias.as_str());
    out.append(a.as_str());
    out.append("\", \"path\": \"");
    let b = escape_json_str(p.path.as_str());
    out.append(b.as_str());
    out.append("\"}");
    proof {
        reveal_strlit("{\"alias\": \"");
        reveal_strlit("\", \"path\": \"");
        reveal_strlit("\"}");
        lemma_keys_plain();
        assert(out@ =~= before + entry_text(p@));
    }
}

/// Writes a list of projects as a JSON array, one project per line.
pub fn projects_to_json(projects: &[Project]) -> (s: String)
    ensures
        s@ == projects_text(project_models(projects@)),
{
    let ghost ps = project_models(projects@);
    let mut s = String::from_str("[\n");
    proof {
        reveal_strlit("[\n");
        assert(s@ =~= seq!['[', '\n'] + project_lines(ps, 0, seq![]));
    }
    let mut i: usize = 0;
    while i < projects.len()
        invariant
            ps == project_models(projects@),
            i <= projects@.len(),
            s@ == seq!['[', '\n'] + project_lines(ps, i as nat, seq![]),
        decreases projects@.len() - i,
    {
        let ghost before = s@;
        s.append("  ");
        push_entry(&mut s, &projects[i]);
        if i + 1 < projects.len() {
            s.push(',');
        }
        s.push('\n');
        proof {
            reveal_strlit("  ");
            assert(ps[i as int] == projects@[i as int]@);
            assert(s@ =~= before + project_line(ps, i as int, seq![]));
        }
        i = i + 1;
    }
    s.push(']');
    proof {
        assert(s@ =~= projects_text(ps));
    }
    s
}

/// Writes a named profile: an object whose `projects` key holds the list.
pub fn profile_to_json(projects: &[Project]) -> (s: String)
    ensures
        s@ == profile_text(project_models(projects@)),
{
    let inner = projects_to_json(projects);
    let chars = chars_of(inner.as_str());
    let mut s = String::from_str("{\n  \"projects\": ");
    let ghost head = s@;
    s.append("  ");
    let ghost f = |c: char| indent_char(c);
    let mut i: usize = 0;
    proof {
        reveal_strlit("  ");
        assert(chars@.take(0) =~= Seq::<char>::empty());
        assert(s@ =~= head + seq![' ', ' '] + concat_map(chars@.take(0), f));
    }
    while i < chars.len()
        invariant
            s@ == head + seq![' ', ' '] + concat_map(chars@.take(i as int), f),
            i <= chars@.len(),
            f == (|c: char| indent_char(c)),
        decreases chars@.len() - i,
    {
        let c = chars[i];
        let ghost before = s@;
        if c == '\n' {
            s.push('\n');
            s.push(' ');
            s.push(' ');
        } else {
            s.push(c);
        }
        proof {
            assert(chars@.take(i + 1) =~= chars@.take(i as int).push(c));
            lemma_concat_map_push(chars@.take(i as int), c, f);
            assert(f(c) == indent_char(c));
            assert(s@ =~= head + seq![' ', ' '] + concat_map(chars@.take(i + 1), f));
        }
        i = i + 1;
    }
    s.append("\n}");
    proof {
        reveal_strlit("{\n  \"projects\": ");
        reveal_strlit("  ");
        reveal_strlit("\n}");
        lemma_keys_plain();
        assert(chars@.take(i as int) =~= chars@);
        assert(s@ =~= profile_text(project_models(projects@)));
    }
    s
}

/// Writes the file buffer as a JSON array of strings, one per line.
pub fn buffer_to_json(buf: &[String]) -> (s: String)
    ensures
        s@ == buffer_text(string_models(buf@)),
{
    let ghost b = string_models(buf@);
    let mut s = String::from_str("[\n");
    proof {
        reveal_strlit("[\n");
        assert(s@ =~= seq!['[', '\n'] + buffer_lines(b, 0));
    }
    let mut i: usize = 0;
    while i < buf.len()
        invariant
            b == string_models(buf@),
            i <= buf@.len(),
            s@ == seq!['[', '\n'] + buffer_lines(b, i as nat),
        decreases buf@.len() - i,
    {
        let ghost before = s@;
        s.append("  \"");
        let e = escape_json_str(buf[i].as_str());
        s.append(e.as_str());
        s.push('"');
        if i + 1 < buf.len() {
            s.push(',');
        }
        s.push('\n');
        proof {
            reveal_strlit("  \"");
            assert(b[i as int] == buf@[i as int]@);
            assert(s@ =~= before + buffer_line(b, i as int));
        }
        i = i + 1;
    }
    s.push(']');
    proof {
        assert(s@ =~= buffer_text(b));
    }
    s
}


// ---------------------------------------------------------------------------
// Reading the written form back.
// ---------------------------------------------------------------------------

/// The string under the last `key` whose value is a string, if any.
pub open spec fn last_str_for(pairs: Seq<(Seq<char>, Json)>, key: Seq<char>) -> Option<Seq<char>>
    decreases pairs.len(),
{
    if pairs.len() == 0 {
        None
    } else if pairs.last().0 == key && pairs.last().1 is Str {
        Some(pairs.last().1->Str_0)
    } else {
        last_str_for(pairs.drop_last(), key)
    }
}

/// The value under the first `key`, if any.
pub open spec fn first_value_for(pairs: Seq<(Seq<char>, Json)>, key: Seq<char>) -> Option<Json>
    decreases pairs.len(),
{
    if pairs.len() == 0 {
        None
    } else if pairs[0].0 == key {
        Some(pairs[0].1)
    } else {
        first_value_for(pairs.drop_first(), key)
    }
}

/// The project that a JSON object describes.
pub open spec fn object_to_project(j: Json) -> Result<ProjectModel, Seq<char>> {
    match j {
        Json::Object(pairs) => match last_str_for(pairs, alias_key()) {
            None => Err("missing 'alias' field"@),
            Some(a) => match last_str_for(pairs, path_key()) {
                None => Err("missing 'path' field"@),
                Some(p) => Ok(ProjectModel { alias: a, path: p }),
            },
        },
        _ => Err("expected JSON object for project entry"@),
    }
}

/// The projects that a list of JSON items describes; the first bad item decides the error.
pub open spec fn items_to_projects(items: Seq<Json>) -> Result<Seq<ProjectModel>, Seq<char>>
    decreases items.len(),
{
    if items.len() == 0 {
        Ok(seq![])
    } else {
        match items_to_projects(items.drop_last()) {
            Err(e) => Err(e),
            Ok(ps) => match object_to_project(items.last()) {
                Err(e) => Err(e),
                Ok(p) => Ok(ps.push(p)),
            },
        }
    }
}

/// Once a prefix of the items fails, the whole list fails the same way.
pub proof fn lemma_items_to_projects_err(items: Seq<Json>, k: int)
    requires
        0 <= k <= items.len(),
        items_to_projects(items.take(k)) is Err,
    ensures
        items_to_projects(items) == items_to_projects(items.take(k)),
    decreases items.len(),
{
    if k == items.len() {
        assert(items.take(k) =~= items);
    } else {
        assert(items.drop_last().take(k) =~= items.take(k));
        lemma_items_to_projects_err(items.drop_last(), k);
    }
}

/// The projects that a JSON array describes.
pub open spec fn json_projects(j: Json) -> Result<Seq<ProjectModel>, Seq<char>> {
    match j {
        Json::Array(items) => items_to_projects(items),
        _ => Err("expected JSON array"@),
    }
}

/// The projects that a profile object holds under `projects`.
pub open spec fn json_profile_projects(j: Json) -> Result<Seq<ProjectModel>, Seq<char>> {
    match j {
        Json::Object(pairs) => match first_value_for(pairs, projects_key()) {
            Some(v) => json_projects(v),
            None => Err("profile JSON missing 'projects' key"@),
        },
        _ => Err("expected JSON object for profile"@),
    }
}

/// The strings among a list of JSON items, in order.
pub open spec fn strings_among(items: Seq<Json>) -> Seq<Seq<char>>
    decreases items.len(),
{
    if items.len() == 0 {
        seq![]
    } else if items.last() is Str {
        strings_among(items.drop_last()).push(items.last()->Str_0)
    } else {
        strings_among(items.drop_last())
    }
}

/// A list of projects with its message as text.
pub open spec fn projects_result(r: Result<Vec<Project>, String>) -> Result<Seq<ProjectModel>, Seq<char>> {
    match r {
        Ok(v) => Ok(project_models(v@)),
        Err(e) => Err(e@),
    }
}

/// A project with its message as text.
pub open spec fn project_result(r: Result<Project, String>) -> Result<ProjectModel, Seq<char>> {
    match r {
        Ok(p) => Ok(p@),
        Err(e) => Err(e@),
    }
}

/// A list of strings with its message as text.
pub open spec fn strings_result(r: Result<Vec<String>, String>) -> Result<Seq<Seq<char>>, Seq<char>> {
    match r {
        Ok(v) => Ok(string_models(v@)),
        Err(e) => Err(e@),
    }
}

/// Reads the project described by a JSON object: the last string under
/// `alias` and the last string under `path`.
pub fn json_object_to_project(val: &JsonValue) -> (r: Result<Project, String>)
    ensures
        project_result(r) == object_to_project(val.model()),
{
    match val {
        JsonValue::Object(pairs) => {
            let ghost ms = pair_models(pairs@);
            proof {
                lemma_model_pairs_len(pairs@, pairs@.len());
            }
            let mut alias: Option<String> = None;
            let mut path: Option<String> = None;
            let mut i: usize = 0;
            while i < pairs.len()
                invariant
                    ms == pair_models(pairs@),
                    ms.len() == pairs@.len(),
                    forall|j: int| 0 <= j < ms.len() ==> #[trigger] ms[j] == (pairs@[j].0@, pairs@[j].1.model()),
                    i <= pairs@.len(),
                    match alias { Some(a) => last_str_for(ms.take(i as int), alias_key()) == Some(a@), None => last_str_for(ms.take(i as int), alias_key()) is None },
                    match path { Some(a) => last_str_for(ms.take(i as int), path_key()) == Some(a@), None => last_str_for(ms.take(i as int), path_key()) is None },
                decreases pairs@.len() - i,
            {
                let k = &pairs[i].0;
                let v = &pairs[i].1;
                proof {
                    assert(ms.take(i + 1).drop_last() =~= ms.take(i as int));
                    assert(ms.take(i + 1).last() == ms[i as int]);
                    reveal_strlit("alias");
                    reveal_strlit("path");
                }
                if same_text(k, "alias") {
                    match v {
                        JsonValue::Str(s) => {
                            alias = Some(s.clone());
                        },
                        _ => {},
                    }
                } else if same_text(k, "path") {
                    match v {
                        JsonValue::Str(s) => {
                            path = Some(s.clone());
                        },
                        _ => {},
                    }
                }
                proof {
                    assert("alias"@ =~= alias_key());
                    assert("path"@ =~= path_key());
                }
                i = i + 1;
            }
            proof {
                assert(ms.take(i as int) =~= ms);
            }
            let a = match alias {
                Some(a) => a,
                None => return Err(String::from_str("missing 'alias' field")),
            };
            let p = match path {
                Some(p) => p,
                None => return Err(String::from_str("missing 'path' field")),
            };
            Ok(Project { alias: a, path: p })
        },
        _ => Err(String::from_str("expected JSON object for project entry")),
    }
}

/// Reads a JSON array of project objects; the first bad item decides the error.
pub fn json_to_projects(val: &JsonValue) -> (r: Result<Vec<Project>, String>)
    ensures
        projects_result(r) == json_projects(val.model()),
{
    match val {
        JsonValue::Array(items) => {
            let ghost ms = models(items@);
            proof {
                lemma_model_items_len(items@, items@.len());
            }
            let mut projects: Vec<Project> = Vec::new();
            let mut i: usize = 0;
            proof {
                assert(ms.take(0) =~= Seq::<Json>::empty());
                assert(project_models(projects@) =~= Seq::<ProjectModel>::empty());
            }
            while i < items.len()
                invariant
                    ms == models(items@),
                    val.model() == Json::Array(ms),
                    ms.len() == items@.len(),
                    forall|j: int| 0 <= j < ms.len() ==> #[trigger] ms[j] == items@[j].model(),
                    i <= items@.len(),
                    items_to_projects(ms.take(i as int)) == Ok::<Seq<ProjectModel>, Seq<char>>(project_models(projects@)),
                decreases items@.len() - i,
            {
                proof {
                    assert(ms.take(i + 1).drop_last() =~= ms.take(i as int));
                    assert(ms.take(i + 1).last() == ms[i as int]);
                }
                let p = match json_object_to_project(&items[i]) {
                    Ok(p) => p,
                    Err(e) => {
                        proof {
                            assert(items_to_projects(ms.take(i + 1)) == Err::<Seq<ProjectModel>, Seq<char>>(e@));
                            lemma_items_to_projects_err(ms, i + 1);
                        }
                        return Err(e);
                    },
                };
                let ghost before = projects@;
                let ghost pm = p@;
                projects.push(p);
                proof {
                    assert(project_models(projects@) =~= project_models(before).push(pm));
                }
                i = i + 1;
            }
            proof {
                assert(ms.take(i as int) =~= ms);
            }
            Ok(projects)
        },
        _ => Err(String::from_str("expected JSON array")),
    }
}


pub proof fn lemma_first_value_skip(pairs: Seq<(Seq<char>, Json)>, key: Seq<char>, i: int)
    requires
        0 <= i <= pairs.len(),
        forall|j: int| 0 <= j < i ==> (#[trigger] pairs[j]).0 != key,
    ensures
        first_value_for(pairs, key) == first_value_for(pairs.skip(i), key),
    decreases i,
{
    if i > 0 {
        lemma_first_value_skip(pairs.drop_first(), key, i - 1);
        assert(pairs.drop_first().skip(i - 1) =~= pairs.skip(i));
        assert(pairs[0].0 != key);
    } else {
        assert(pairs.skip(0) =~= pairs);
    }
}

/// Reads the project list of a profile: the value under the first `projects`
/// key of the object.
pub fn json_to_profile_projects(val: &JsonValue) -> (r: Result<Vec<Project>, String>)
    ensures
        projects_result(r) == json_profile_projects(val.model()),
{
    match val {
        JsonValue::Object(pairs) => {
            let ghost ms = pair_models(pairs@);
            proof {
                lemma_model_pairs_len(pairs@, pairs@.len());
                reveal_strlit("projects");
                assert("projects"@ =~= projects_key());
            }
            let mut i: usize = 0;
            while i < pairs.len()
                invariant
                    ms == pair_models(pairs@),
                    val.model() == Json::Object(ms),
                    "projects"@ == projects_key(),
                    ms.len() == pairs@.len(),
                    forall|j: int| 0 <= j < ms.len() ==> #[trigger] ms[j] == (pairs@[j].0@, pairs@[j].1.model()),
                    i <= pairs@.len(),
                    forall|j: int| 0 <= j < i ==> (#[trigger] ms[j]).0 != projects_key(),
                decreases pairs@.len() - i,
            {
                if same_text(&pairs[i].0, "projects") {
                    proof {
                        lemma_first_value_skip(ms, projects_key(), i as int);
                        assert(ms.skip(i as int)[0] == ms[i as int]);
                    }
                    return json_to_projects(&pairs[i].1);
                }
                i = i + 1;
            }
            proof {
                lemma_first_value_skip(ms, projects_key(), i as int);
                assert(ms.skip(i as int).len() == 0);
            }
            Err(String::from_str("profile JSON missing 'projects' key"))
        },
        _ => Err(String::from_str("expected JSON object for profile")),
    }
}

/// The buffer entries that a JSON array holds: its strings, in order.
pub open spec fn json_buffer(j: Json) -> Result<Seq<Seq<char>>, Seq<char>> {
    match j {
        Json::Array(items) => Ok(strings_among(items)),
        _ => Err("buffer.json must be a JSON array"@),
    }
}

/// Reads the file buffer from its JSON array; items that are not strings are passed over.
pub fn json_to_buffer(val: &JsonValue) -> (r: Result<Vec<String>, String>)
    ensures
        strings_result(r) == json_buffer(val.model()),
{
    match val {
        JsonValue::Array(items) => {
            let ghost ms = models(items@);
            proof {
                lemma_model_items_len(items@, items@.len());
                assert(ms.take(0) =~= Seq::<Json>::empty());
            }
            let mut out: Vec<String> = Vec::new();
            proof {
                assert(string_models(out@) =~= Seq::<Seq<char>>::empty());
            }
            let mut i: usize = 0;
            while i < items.len()
                invariant
                    ms == models(items@),
                    val.model() == Json::Array(ms),
                    ms.len() == items@.len(),
                    forall|j: int| 0 <= j < ms.len() ==> #[trigger] ms[j] == items@[j].model(),
                    i <= items@.len(),
                    strings_among(ms.take(i as int)) == string_models(out@),
                decreases items@.len() - i,
            {
                proof {
                    assert(ms.take(i + 1).drop_last() =~= ms.take(i as int));
                    assert(ms.take(i + 1).last() == ms[i as int]);
                }
                match &items[i] {
                    JsonValue::Str(s) => {
                        let ghost before = out@;
                        out.push(s.clone());
                        proof {
                            assert(string_models(out@) =~= string_models(before).push(s@));
                        }
                    },
                    _ => {},
                }
                i = i + 1;
            }
            proof {
                assert(ms.take(i as int) =~= ms);
            }
            Ok(out)
        },
        _ => Err(String::from_str("buffer.json must be a JSON array")),
    }
}

/// `prefix` followed by the text of `e`.
fn prefixed(prefix: &str, e: &String) -> (m: String)
    ensures
        m@ == prefix@ + e@,
{
    let mut m = String::from_str(prefix);
    m.append(e.as_str());
    m
}

/// What reading the projects file gives, from its text: surrounding
/// whitespace is ignored, and a blank file holds no projects.
pub open spec fn decode_projects(text: Seq<char>) -> Result<Seq<ProjectModel>, Seq<char>> {
    let t = trimmed(text);
    if t.len() == 0 {
        Ok(seq![])
    } else {
        match value_at(t, 0).0 {
            Err(e) => Err("parse error in projects.json: "@ + e),
            Ok(j) => json_projects(j),
        }
    }
}

/// What reading the buffer file gives, from its text: surrounding
/// whitespace is ignored, and a blank file holds no entries.
pub open spec fn decode_buffer(text: Seq<char>) -> Result<Seq<Seq<char>>, Seq<char>> {
    let t = trimmed(text);
    if t.len() == 0 {
        Ok(seq![])
    } else {
        match value_at(t, 0).0 {
            Err(e) => Err("parse error in buffer.json: "@ + e),
            Ok(j) => json_buffer(j),
        }
    }
}

/// What reading a profile file gives, from its text: surrounding whitespace
/// is ignored.
pub open spec fn decode_profile(text: Seq<char>) -> Result<Seq<ProjectModel>, Seq<char>> {
    match value_at(trimmed(text), 0).0 {
        Err(e) => Err("parse error in profile: "@ + e),
        Ok(j) => json_profile_projects(j),
    }
}

/// Reads the project list from the text of the projects file.
pub fn projects_from_text(text: &str) -> (r: Result<Vec<Project>, String>)
    requires
        text@.len() < usize::MAX,
    ensures
        projects_result(r) == decode_projects(text@),
{
    let t = trim_text(text);
    proof { lemma_trimmed_len(text@); }
    if t.as_str().is_empty() {
        let v: Vec<Project> = Vec::new();
        assert(project_models(v@) =~= Seq::<ProjectModel>::empty());
        return Ok(v);
    }
    match parse_json(t.as_str()) {
        Err(e) => Err(prefixed("parse error in projects.json: ", &e)),
        Ok(val) => json_to_projects(&val),
    }
}

/// Reads the file buffer from the text of its file.
pub fn buffer_from_text(text: &str) -> (r: Result<Vec<String>, String>)
    requires
        text@.len() < usize::MAX,
    ensures
        strings_result(r) == decode_buffer(text@),
{
    let t = trim_text(text);
    proof { lemma_trimmed_len(text@); }
    if t.as_str().is_empty() {
        let v: Vec<String> = Vec::new();
        assert(string_models(v@) =~= Seq::<Seq<char>>::empty());
        return Ok(v);
    }
    match parse_json(t.as_str()) {
        Err(e) => Err(prefixed("parse error in buffer.json: ", &e)),
        Ok(val) => json_to_buffer(&val),
    }
}

/// Reads a profile's project list from the text of its file.
pub fn profile_from_text(text: &str) -> (r: Result<Vec<Project>, String>)
    requires
        text@.len() < usize::MAX,
    ensures
        projects_result(r) == decode_profile(text@),
{
    let t = trim_text(text);
    proof { lemma_trimmed_len(text@); }
    match parse_json(t.as_str()) {
        Err(e) => Err(prefixed("parse error in profile: ", &e)),
        Ok(val) => json_to_profile_projects(&val),
    }
}

} // verus!
