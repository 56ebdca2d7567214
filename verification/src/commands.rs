use vstd::prelude::*;

use crate::project::{Project, ProjectModel, project_models};
use crate::paths::{profile_file_path, profile_path};
use crate::text::{chars_of, decimal, law_decimal_reads_back, parse_usize, parsed_usize, push_decimal, same_text, shell_quote, shell_quoted};

verus! {

// ---------------------------------------------------------------------------
// Finding a bookmark by alias or by its number in the list.
// ---------------------------------------------------------------------------

/// The first index at or after `i` whose alias is `a`.
pub open spec fn alias_index_from(ps: Seq<ProjectModel>, a: Seq<char>, i: int) -> Option<int>
    decreases ps.len() - i,
{
    if i < 0 || i >= ps.len() {
        None
    } else if ps[i].alias == a {
        Some(i)
    } else {
        alias_index_from(ps, a, i + 1)
    }
}

/// The first index whose alias is `a`.
pub open spec fn alias_index(ps: Seq<ProjectModel>, a: Seq<char>) -> Option<int> {
    alias_index_from(ps, a, 0)
}

/// The bookmark that `arg` names: the first with `arg` as its alias; failing
/// that, the one numbered `arg` when counting from 1.
pub open spec fn resolved_index(ps: Seq<ProjectModel>, arg: Seq<char>) -> Option<int> {
    match alias_index(ps, arg) {
        Some(i) => Some(i),
        None => match parsed_usize(arg) {
            Some(n) => if 1 <= n <= ps.len() {
                Some(n - 1)
            } else {
                None
            },
            None => None,
        },
    }
}

pub proof fn lemma_alias_index_from(ps: Seq<ProjectModel>, a: Seq<char>, i: int)
    requires
        0 <= i <= ps.len(),
    ensures
        match alias_index_from(ps, a, i) {
            Some(j) => i <= j < ps.len() && ps[j].alias == a && forall|k: int|
                i <= k < j ==> (#[trigger] ps[k]).alias != a,
            None => forall|k: int| i <= k < ps.len() ==> (#[trigger] ps[k]).alias != a,
        },
    decreases ps.len() - i,
{
    if i < ps.len() && ps[i].alias != a {
        lemma_alias_index_from(ps, a, i + 1);
    }
}

/// The first index whose alias is `a`.
fn find_alias(projects: &[Project], a: &str) -> (r: Option<usize>)
    ensures
        match r {
            Some(i) => i < projects@.len() && alias_index(project_models(projects@), a@) == Some(
                i as int,
            ),
            None => alias_index(project_models(projects@), a@) is None,
        },
{
    let ghost ps = project_models(projects@);
    proof {
        lemma_alias_index_from(ps, a@, 0);
    }
    let mut i: usize = 0;
    while i < projects.len()
        invariant
            ps == project_models(projects@),
            i <= projects@.len(),
            alias_index(ps, a@) == alias_index_from(ps, a@, i as int),
        decreases projects@.len() - i,
    {
        if same_text(&projects[i].alias, a) {
            return Some(i);
        }
        i = i + 1;
    }
    None
}

/// Finds the bookmark that `arg` names: first by alias, then as a number
/// counted from 1; gives its index and the bookmark.
pub fn resolve_alias_or_index<'a>(projects: &'a [Project], arg: &str) -> (r: Option<(usize, &'a Project)>)
    ensures
        match r {
            Some((i, p)) => resolved_index(project_models(projects@), arg@) == Some(i as int) && i
                < projects@.len() && *p == projects@[i as int],
            None => resolved_index(project_models(projects@), arg@) is None,
        },
{
    if let Some(idx) = find_alias(projects, arg) {
        return Some((idx, &projects[idx]));
    }
    if let Some(n) = parse_usize(arg) {
        if n >= 1 && n <= projects.len() {
            let idx = n - 1;
            return Some((idx, &projects[idx]));
        }
    }
    None
}

// ---------------------------------------------------------------------------
// Registering and removing bookmarks.
// ---------------------------------------------------------------------------

/// The message for an alias that is already taken.
pub open spec fn msg_alias_taken(alias: Seq<char>) -> Seq<char> {
    "alias '"@ + alias + "' already exists"@
}

/// The message for an argument that names no bookmark.
pub open spec fn msg_no_project(arg: Seq<char>) -> Seq<char> {
    "no project found for '"@ + arg + "'"@
}

/// The list after registering `path` under `alias`, or why it is refused.
pub open spec fn registered(ps: Seq<ProjectModel>, alias: Seq<char>, path: Seq<char>) -> Result<
    Seq<ProjectModel>,
    Seq<char>,
> {
    if alias_index(ps, alias) is Some {
        Err(msg_alias_taken(alias))
    } else {
        Ok(ps.push(ProjectModel { alias, path }))
    }
}

/// Registers `path` under `alias` at the end of the list; refused, with the
/// list unchanged, when a bookmark already has that alias.
pub fn register_project(projects: &mut Vec<Project>, alias: &str, path: &str) -> (r: Result<(), String>)
    ensures
        match registered(project_models(old(projects)@), alias@, path@) {
            Ok(ps) => r is Ok && project_models(final(projects)@) == ps,
            Err(m) => r is Err && r->Err_0@ == m && final(projects)@ == old(projects)@,
        },
{
    if find_alias(projects.as_slice(), alias).is_some() {
        let mut m = String::from_str("alias '");
        m.append(alias);
        m.append("' already exists");
        return Err(m);
    }
    let ghost before = projects@;
    projects.push(Project { alias: String::from_str(alias), path: String::from_str(path) });
    proof {
        assert(project_models(projects@) =~= project_models(before).push(
            ProjectModel { alias: alias@, path: path@ },
        ));
    }
    Ok(())
}

/// The removed bookmark and the list without it, or why nothing is removed.
pub open spec fn removed(ps: Seq<ProjectModel>, arg: Seq<char>) -> Result<
    (ProjectModel, Seq<ProjectModel>),
    Seq<char>,
> {
    match resolved_index(ps, arg) {
        Some(i) => Ok((ps[i], ps.remove(i))),
        None => Err(msg_no_project(arg)),
    }
}

/// Removes the bookmark that `arg` names (by alias, else by number) and gives
/// it back; the list is unchanged when `arg` names none.
pub fn remove_project(projects: &mut Vec<Project>, arg: &str) -> (r: Result<Project, String>)
    ensures
        match removed(project_models(old(projects)@), arg@) {
            Ok((p, ps)) => r is Ok && r->Ok_0@ == p && project_models(final(projects)@) == ps,
            Err(m) => r is Err && r->Err_0@ == m && final(projects)@ == old(projects)@,
        },
{
    let idx = match resolve_alias_or_index(projects.as_slice(), arg) {
        Some((idx, _)) => idx,
        None => {
            let mut m = String::from_str("no project found for '");
            m.append(arg);
            m.append("'");
            return Err(m);
        },
    };
    let ghost before = projects@;
    let p = projects.remove(idx);
    proof {
        assert(project_models(projects@) =~= project_models(before).remove(idx as int));
    }
    Ok(p)
}


// ---------------------------------------------------------------------------
// Where a bookmark leads.
// ---------------------------------------------------------------------------

/// The text `$HOME`.
pub open spec fn home_marker() -> Seq<char> {
    seq!['$', 'H', 'O', 'M', 'E']
}

/// `s` with every `$HOME`, from left to right, replaced by `home`.
pub open spec fn with_home(s: Seq<char>, home: Seq<char>) -> Seq<char>
    decreases s.len(),
{
    if s.len() == 0 {
        seq![]
    } else if s.len() >= 5 && s.take(5) == home_marker() {
        home + with_home(s.skip(5), home)
    } else {
        seq![s[0]] + with_home(s.skip(1), home)
    }
}

impl Project {
    /// The bookmarked path with each `$HOME` replaced by `home` (the caller
    /// passes the value of `HOME`, or the empty string when it is unset).
    pub fn resolved_path(&self, home: &str) -> (r: String)
        ensures
            r@ == with_home(self.path@, home@),
    {
        let c = chars_of(self.path.as_str());
        let mut out = String::new();
        let mut i: usize = 0;
        proof {
            assert(c@.skip(0) =~= c@);
            assert(out@ + with_home(c@.skip(0), home@) =~= with_home(c@, home@));
        }
        while i < c.len()
            invariant
                c@ == self.path@,
                i <= c@.len(),
                out@ + with_home(c@.skip(i as int), home@) == with_home(c@, home@),
            decreases c@.len() - i,
        {
            let ghost rest = c@.skip(i as int);
            if c.len() - i >= 5 && c[i] == '$' && c[i + 1] == 'H' && c[i + 2] == 'O' && c[i + 3]
                == 'M' && c[i + 4] == 'E' {
                proof {
                    assert(rest.take(5) =~= home_marker());
                    assert(rest.skip(5) =~= c@.skip(i + 5));
                }
                let ghost before = out@;
                out.append(home);
                proof {
                    assert(out@ + with_home(c@.skip(i + 5), home@) =~= before + with_home(
                        rest,
                        home@,
                    ));
                }
                i = i + 5;
            } else {
                proof {
                    if rest.len() >= 5 && rest.take(5) == home_marker() {
                        assert(rest.take(5)[0] == c@[i as int]);
                        assert(rest.take(5)[1] == c@[i + 1]);
                        assert(rest.take(5)[2] == c@[i + 2]);
                        assert(rest.take(5)[3] == c@[i + 3]);
                        assert(rest.take(5)[4] == c@[i + 4]);
                    }
                    assert(rest.skip(1) =~= c@.skip(i + 1));
                }
                let ghost before = out@;
                out.push(c[i]);
                proof {
                    assert(out@ + with_home(c@.skip(i + 1), home@) =~= before + with_home(
                        rest,
                        home@,
                    ));
                }
                i = i + 1;
            }
        }
        proof {
            assert(c@.skip(i as int) =~= Seq::<char>::empty());
            assert(out@ =~= out@ + with_home(c@.skip(i as int), home@));
        }
        out
    }
}

/// `$HOME` stands at position `i` of `s`.
pub open spec fn home_at(s: Seq<char>, i: int) -> bool {
    0 <= i && i + 5 <= s.len() && s.subrange(i, i + 5) == home_marker()
}

/// A path with no `$HOME` in it is left as it is.
pub proof fn law_path_without_home_unchanged(s: Seq<char>, home: Seq<char>)
    requires
        forall|i: int| !#[trigger] home_at(s, i),
    ensures
        with_home(s, home) == s,
    decreases s.len(),
{
    if s.len() > 0 {
        let rest = s.skip(1);
        assert forall|i: int| !#[trigger] home_at(rest, i) by {
            if 0 <= i && i + 5 <= rest.len() {
                assert(rest.subrange(i, i + 5) =~= s.subrange(i + 1, i + 6));
                assert(!home_at(s, i + 1));
            }
        }
        law_path_without_home_unchanged(rest, home);
        if s.len() >= 5 {
            assert(s.take(5) =~= s.subrange(0, 5));
            assert(!home_at(s, 0));
        }
        assert(seq![s[0]] + rest =~= s);
    }
}

/// The shell line that changes to `path`.
pub open spec fn cd_text(path: Seq<char>) -> Seq<char> {
    "cd "@ + shell_quoted(path)
}

/// The shell line that changes to `path`: `cd` and the quoted path.
pub fn cd_command(path: &str) -> (r: String)
    ensures
        r@ == cd_text(path@),
{
    let mut r = String::from_str("cd ");
    let q = shell_quote(path);
    r.append(q.as_str());
    r
}

/// What activating `arg` prints and records, or why it fails.
pub open spec fn activation(ps: Seq<ProjectModel>, arg: Seq<char>, home: Seq<char>) -> Result<
    (Seq<char>, Seq<char>),
    Seq<char>,
> {
    match resolved_index(ps, arg) {
        Some(i) => Ok((cd_text(with_home(ps[i].path, home)), ps[i].alias)),
        None => Err(msg_no_project(arg)),
    }
}

/// Activates the bookmark that `arg` names: gives the `cd` line to print and
/// the alias to record as active.
pub fn activate_project(projects: &[Project], arg: &str, home: &str) -> (r: Result<(String, String), String>)
    ensures
        match activation(project_models(projects@), arg@, home@) {
            Ok((line, alias)) => r is Ok && r->Ok_0.0@ == line && r->Ok_0.1@ == alias,
            Err(m) => r is Err && r->Err_0@ == m,
        },
{
    match resolve_alias_or_index(projects, arg) {
        Some((_, p)) => {
            let resolved = p.resolved_path(home);
            Ok((cd_command(resolved.as_str()), p.alias.clone()))
        },
        None => {
            let mut m = String::from_str("no project found for '");
            m.append(arg);
            m.append("'");
            Err(m)
        },
    }
}

/// Whether `p` is the active bookmark, `active` being the recorded alias.
pub fn is_active(active: Option<&str>, p: &Project) -> (b: bool)
    ensures
        b == (active is Some && active->0@ == p.alias@),
{
    match active {
        Some(a) => same_text(&p.alias, a),
        None => false,
    }
}

// ---------------------------------------------------------------------------
// Listings.
// ---------------------------------------------------------------------------

/// A listing line: two spaces, the number, two spaces, the text.
pub open spec fn numbered_text(n: nat, text: Seq<char>) -> Seq<char> {
    "  "@ + decimal(n) + "  "@ + text
}

/// A listing line: two spaces, the number, two spaces, the text.
pub fn numbered_line(n: usize, text: &str) -> (r: String)
    ensures
        r@ == numbered_text(n as nat, text@),
{
    let mut r = String::from_str("  ");
    push_decimal(&mut r, n);
    r.append("  ");
    r.append(text);
    r
}

/// The line for bookmark `i` in the list: `*` when it is the active one.
pub open spec fn list_line(ps: Seq<ProjectModel>, i: int, active: Option<Seq<char>>, home: Seq<char>) -> Seq<char> {
    (if active == Some(ps[i].alias) {
        "*"@
    } else {
        " "@
    }) + " "@ + decimal((i + 1) as nat) + "  "@ + ps[i].alias + " -> "@ + with_home(ps[i].path, home)
}

/// The recorded active alias, as text.
pub open spec fn active_model(active: Option<&str>) -> Option<Seq<char>> {
    match active {
        Some(a) => Some(a@),
        None => None,
    }
}

/// The lines that `list` prints: one per bookmark, or a hint when there is none.
pub fn list_output(projects: &[Project], active: Option<&str>, home: &str) -> (r: Vec<String>)
    ensures
        projects@.len() == 0 ==> r@.len() == 1 && r@[0]@ == "No projects registered. Use: projenv init <alias>"@,
        projects@.len() > 0 ==> r@.len() == projects@.len() && forall|i: int|
            0 <= i < r@.len() ==> #[trigger] r@[i]@ == list_line(
                project_models(projects@),
                i,
                active_model(active),
                home@,
            ),
{
    let mut out: Vec<String> = Vec::new();
    if projects.len() == 0 {
        out.push(String::from_str("No projects registered. Use: projenv init <alias>"));
        return out;
    }
    let ghost ps = project_models(projects@);
    let mut i: usize = 0;
    while i < projects.len()
        invariant
            ps == project_models(projects@),
            i <= projects@.len(),
            out@.len() == i,
            forall|j: int| 0 <= j < i ==> #[trigger] out@[j]@ == list_line(ps, j, active_model(active), home@),
        decreases projects@.len() - i,
    {
        let p = &projects[i];
        let mut line = if is_active(active, p) {
            String::from_str("*")
        } else {
            String::from_str(" ")
        };
        line.append(" ");
        push_decimal(&mut line, i + 1);
        line.append("  ");
        line.append(p.alias.as_str());
        line.append(" -> ");
        let r = p.resolved_path(home);
        line.append(r.as_str());
        proof {
            assert(ps[i as int] == p@);
            assert(line@ =~= list_line(ps, i as int, active_model(active), home@));
        }
        out.push(line);
        i = i + 1;
    }
    out
}

// ---------------------------------------------------------------------------
// Choosing a profile.
// ---------------------------------------------------------------------------

/// Text order: character by character, a proper prefix first.
pub open spec fn text_le(a: Seq<char>, b: Seq<char>) -> bool
    decreases a.len(),
{
    if a.len() == 0 {
        true
    } else if b.len() == 0 {
        false
    } else if a[0] != b[0] {
        (a[0] as int) < (b[0] as int)
    } else {
        text_le(a.drop_first(), b.drop_first())
    }
}

pub proof fn lemma_text_le_total(a: Seq<char>, b: Seq<char>)
    ensures
        text_le(a, b) || text_le(b, a),
    decreases a.len(),
{
    if a.len() > 0 && b.len() > 0 && a[0] == b[0] {
        lemma_text_le_total(a.drop_first(), b.drop_first());
    }
}

pub proof fn lemma_text_le_trans(a: Seq<char>, b: Seq<char>, c: Seq<char>)
    requires
        text_le(a, b),
        text_le(b, c),
    ensures
        text_le(a, c),
    decreases a.len(),
{
    if a.len() > 0 && b.len() > 0 && c.len() > 0 && a[0] == b[0] && b[0] == c[0] {
        lemma_text_le_trans(a.drop_first(), b.drop_first(), c.drop_first());
    }
}

/// Whether `a` comes before `b` or equals it in text order.
fn text_le_exec(a: &String, b: &String) -> (r: bool)
    ensures
        r == text_le(a@, b@),
{
    let x = chars_of(a.as_str());
    let y = chars_of(b.as_str());
    let mut i: usize = 0;
    assert(x@.skip(0) =~= x@ && y@.skip(0) =~= y@);
    while i < x.len() && i < y.len()
        invariant
            x@ == a@,
            y@ == b@,
            i <= x@.len(),
            i <= y@.len(),
            text_le(a@, b@) == text_le(x@.skip(i as int), y@.skip(i as int)),
        decreases x@.len() - i,
    {
        let ghost xs = x@.skip(i as int);
        let ghost ys = y@.skip(i as int);
        assert(xs[0] == x@[i as int] && ys[0] == y@[i as int]);
        if x[i] != y[i] {
            return x[i] < y[i];
        }
        assert(xs.drop_first() =~= x@.skip(i + 1));
        assert(ys.drop_first() =~= y@.skip(i + 1));
        i = i + 1;
    }
    x.len() - i <= y.len() - i
}

/// Whether a directory entry called `name` is a profile file: its
/// extension, as `Path::extension` reads it, is `json`, so that it ends in
/// `.json` after at least one other character.
pub open spec fn is_profile_file_name(name: Seq<char>) -> bool {
    name.len() > 5 && name.skip(name.len() - 5) == ".json"@
}

/// Whether a directory entry called `name` is a profile file.
pub fn is_profile_file(name: &String) -> (b: bool)
    ensures
        b == is_profile_file_name(name@),
{
    let c = chars_of(name.as_str());
    let n = c.len();
    proof {
        reveal_strlit(".json");
    }
    if n > 5 && c[n - 5] == '.' && c[n - 4] == 'j' && c[n - 3] == 's' && c[n - 2] == 'o' && c[n
        - 1] == 'n' {
        assert(c@.skip(n - 5) =~= ".json"@);
        true
    } else {
        proof {
            if n > 5 && c@.skip(n - 5) == ".json"@ {
                assert(c@.skip(n - 5)[0] == c@[n - 5]);
                assert(c@.skip(n - 5)[1] == c@[n - 4]);
                assert(c@.skip(n - 5)[2] == c@[n - 3]);
                assert(c@.skip(n - 5)[3] == c@[n - 2]);
                assert(c@.skip(n - 5)[4] == c@[n - 1]);
            }
        }
        false
    }
}

/// Every text comes before or equals the ones after it.
pub open spec fn texts_sorted(v: Seq<Seq<char>>) -> bool {
    forall|i: int, j: int| 0 <= i < j < v.len() ==> text_le(v[i], v[j])
}

/// The names among `names` that are profile files.
pub open spec fn profile_file_names(names: Seq<Seq<char>>) -> Seq<Seq<char>> {
    names.filter(|n: Seq<char>| is_profile_file_name(n))
}

pub proof fn lemma_insert_multiset<A>(s: Seq<A>, i: int, x: A)
    requires
        0 <= i <= s.len(),
    ensures
        s.insert(i, x).to_multiset() =~= s.to_multiset().insert(x),
{
    broadcast use vstd::seq_lib::group_to_multiset_ensures;

    let t = s.insert(i, x);
    assert(t.remove(i) =~= s);
    assert(t[i] == x);
    assert(t.to_multiset().count(x) > 0) by {
        assert(t.contains(x));
    }
}

/// Picks the profile files out of the names in the profiles directory, in
/// text order.
pub fn profile_files(names: &[String]) -> (r: Vec<String>)
    ensures
        texts_sorted(crate::project::string_models(r@)),
        crate::project::string_models(r@).to_multiset() == profile_file_names(
            crate::project::string_models(names@),
        ).to_multiset(),
{
    let ghost all = crate::project::string_models(names@);
    let ghost pred = |n: Seq<char>| is_profile_file_name(n);
    let mut out: Vec<String> = Vec::new();
    let mut i: usize = 0;
    proof {
        assert(all.take(0) =~= Seq::<Seq<char>>::empty());
        assert(crate::project::string_models(out@) =~= Seq::<Seq<char>>::empty());
        assert(all.take(0).filter(pred) =~= Seq::<Seq<char>>::empty()) by {
            reveal(Seq::filter);
        }
    }
    while i < names.len()
        invariant
            all == crate::project::string_models(names@),
            pred == (|n: Seq<char>| is_profile_file_name(n)),
            i <= names@.len(),
            texts_sorted(crate::project::string_models(out@)),
            crate::project::string_models(out@).to_multiset() == all.take(i as int).filter(
                pred,
            ).to_multiset(),
        decreases names@.len() - i,
    {
        let ghost before = crate::project::string_models(out@);
        proof {
            assert(all.take(i + 1) =~= all.take(i as int).push(all[i as int]));
            reveal(Seq::filter);
            assert(all.take(i + 1).filter(pred) == if pred(all[i as int]) {
                all.take(i as int).filter(pred).push(all[i as int])
            } else {
                all.take(i as int).filter(pred)
            }) by {
                assert(all.take(i + 1).drop_last() =~= all.take(i as int));
            }
            assert(all[i as int] == names@[i as int]@);
        }
        if is_profile_file(&names[i]) {
            let x = names[i].clone();
            let mut p: usize = 0;
            while p < out.len() && text_le_exec(&out[p], &x)
                invariant
                    p <= out@.len(),
                    crate::project::string_models(out@) == before,
                    forall|k: int| 0 <= k < p ==> text_le(#[trigger] before[k], x@),
                decreases out@.len() - p,
            {
                p = p + 1;
            }
            proof {
                if p < out@.len() {
                    assert(!text_le(before[p as int], x@));
                    assert forall|k: int| p <= k < before.len() implies !text_le(
                        #[trigger] before[k],
                        x@,
                    ) by {
                        if text_le(before[k], x@) {
                            lemma_text_le_trans(before[p as int], before[k], x@);
                        }
                    }
                }
            }
            out.insert(p, x);
            proof {
                let now = crate::project::string_models(out@);
                assert(now =~= before.insert(p as int, names@[i as int]@));
                lemma_insert_multiset(before, p as int, names@[i as int]@);
                broadcast use vstd::seq_lib::group_to_multiset_ensures;
                assert forall|a: int, b: int| 0 <= a < b < now.len() implies text_le(
                    now[a],
                    now[b],
                ) by {
                    if a < p && b == p {
                    } else if a == p && b > p {
                        lemma_text_le_total(before[b - 1], names@[i as int]@);
                    } else if b < p {
                    } else if a < p {
                        assert(now[b] == before[b - 1]);
                    } else {
                        assert(now[a] == before[a - 1] && now[b] == before[b - 1]);
                    }
                }
            }
        }
        i = i + 1;
    }
    proof {
        assert(all.take(i as int) =~= all);
    }
    out
}

/// The profile that `profile load` reads.
pub enum ProfileChoice {
    /// The profile file at this place in the sorted list of profiles.
    Listed(String),
    /// The profile file of this name; it must exist.
    Named(String),
}

/// The message for a profile number outside the list.
pub open spec fn msg_out_of_range(n: nat, len: nat) -> Seq<char> {
    "profile index "@ + decimal(n) + " out of range (1-"@ + decimal(len) + ")"@
}

/// Chooses the profile that `arg` names: a number counted from 1 picks from
/// the sorted list of profile files (and must be in range); anything else is
/// a profile name.
pub fn select_profile(profiles: &[String], arg: &str, home: &str) -> (r: Result<ProfileChoice, String>)
    ensures
        match parsed_usize(arg@) {
            Some(n) => if 1 <= n <= profiles@.len() {
                r matches Ok(ProfileChoice::Listed(p)) && p@ == profiles@[n - 1]@
            } else {
                r is Err && r->Err_0@ == msg_out_of_range(n as nat, profiles@.len())
            },
            None => r matches Ok(ProfileChoice::Named(p)) && p@ == profile_file_path(home@, arg@),
        },
{
    match parse_usize(arg) {
        Some(n) => {
            if n >= 1 && n <= profiles.len() {
                Ok(ProfileChoice::Listed(profiles[n - 1].clone()))
            } else {
                let mut m = String::from_str("profile index ");
                push_decimal(&mut m, n);
                m.append(" out of range (1-");
                push_decimal(&mut m, profiles.len());
                m.append(")");
                Err(m)
            }
        },
        None => Ok(ProfileChoice::Named(profile_path(home, arg))),
    }
}

/// Chooses the profile that `profile update` writes: the one named, or else
/// the only profile there is.
pub fn update_target(name: Option<&str>, profiles: &[String], home: &str) -> (r: Result<String, String>)
    ensures
        match name {
            Some(n) => r is Ok && r->Ok_0@ == profile_file_path(home@, n@),
            None => if profiles@.len() == 1 {
                r is Ok && r->Ok_0@ == profiles@[0]@
            } else {
                r is Err && r->Err_0@ == "specify a profile name: projenv profile update <name>"@
            },
        },
{
    match name {
        Some(n) => Ok(profile_path(home, n)),
        None => {
            if profiles.len() == 1 {
                Ok(profiles[0].clone())
            } else {
                Err(String::from_str("specify a profile name: projenv profile update <name>"))
            }
        },
    }
}

// ---------------------------------------------------------------------------
// The file buffer.
// ---------------------------------------------------------------------------

/// The entry that `paste` takes and the buffer left, or why there is none.
pub open spec fn popped(b: Seq<Seq<char>>) -> Result<(Seq<char>, Seq<Seq<char>>), Seq<char>> {
    if b.len() == 0 {
        Err("buffer is empty"@)
    } else {
        Ok((b.last(), b.drop_last()))
    }
}

/// Takes the most recently added entry off the buffer.
pub fn pop_buffer(buf: &mut Vec<String>) -> (r: Result<String, String>)
    ensures
        match popped(crate::project::string_models(old(buf)@)) {
            Ok((f, rest)) => r is Ok && r->Ok_0@ == f && crate::project::string_models(final(buf)@)
                == rest,
            Err(m) => r is Err && r->Err_0@ == m && final(buf)@ == old(buf)@,
        },
{
    if buf.len() == 0 {
        return Err(String::from_str("buffer is empty"));
    }
    let ghost before = buf@;
    let f = buf.pop().unwrap();
    proof {
        assert(crate::project::string_models(buf@) =~= crate::project::string_models(before).drop_last());
    }
    Ok(f)
}

/// Adds an entry at the end of the buffer.
pub fn push_buffer(buf: &mut Vec<String>, path: &str)
    ensures
        crate::project::string_models(final(buf)@) == crate::project::string_models(old(buf)@).push(path@),
{
    let ghost before = buf@;
    buf.push(String::from_str(path));
    proof {
        assert(crate::project::string_models(buf@) =~= crate::project::string_models(before).push(path@));
    }
}

/// The shell line that copies `file` into the current directory.
pub open spec fn paste_text(file: Seq<char>) -> Seq<char> {
    "cp "@ + shell_quoted(file) + " ."@
}

/// The shell line that copies `file` into the current directory.
pub fn paste_command(file: &str) -> (r: String)
    ensures
        r@ == paste_text(file@),
{
    let mut r = String::from_str("cp ");
    let q = shell_quote(file);
    r.append(q.as_str());
    r.append(" .");
    r
}


// ---------------------------------------------------------------------------
// Laws.
// ---------------------------------------------------------------------------

/// No two bookmarks share an alias.
pub open spec fn aliases_distinct(ps: Seq<ProjectModel>) -> bool {
    forall|i: int, j: int| 0 <= i < j < ps.len() ==> ps[i].alias != ps[j].alias
}

/// Registering is refused exactly when some bookmark already has the alias.
pub proof fn law_register_refused_iff_taken(ps: Seq<ProjectModel>, alias: Seq<char>, path: Seq<char>)
    ensures
        registered(ps, alias, path) is Err <==> exists|i: int| 0 <= i < ps.len() && (#[trigger] ps[i]).alias == alias,
{
    lemma_alias_index_from(ps, alias, 0);
    if alias_index(ps, alias) is Some {
        let i = alias_index(ps, alias)->0;
        assert(ps[i].alias == alias);
    }
}

/// Right after a bookmark is registered, its alias leads to it: the new
/// bookmark, last in the list.
pub proof fn law_register_then_resolve(ps: Seq<ProjectModel>, alias: Seq<char>, path: Seq<char>)
    requires
        registered(ps, alias, path) is Ok,
    ensures
        resolved_index(registered(ps, alias, path)->Ok_0, alias) == Some(ps.len() as int),
        registered(ps, alias, path)->Ok_0[ps.len() as int] == (ProjectModel { alias, path }),
{
    let new = registered(ps, alias, path)->Ok_0;
    lemma_alias_index_from(ps, alias, 0);
    lemma_alias_index_from(new, alias, 0);
    assert(new[ps.len() as int].alias == alias);
    if alias_index(new, alias) is Some {
        let j = alias_index(new, alias)->0;
        if j < ps.len() {
            assert(new[j] == ps[j]);
        }
    }
}

/// Removing a bookmark by its alias right after registering it gives the
/// bookmark back and leaves the list as it was before.
pub proof fn law_register_then_remove(ps: Seq<ProjectModel>, alias: Seq<char>, path: Seq<char>)
    requires
        registered(ps, alias, path) is Ok,
    ensures
        removed(registered(ps, alias, path)->Ok_0, alias) == Ok::<
            (ProjectModel, Seq<ProjectModel>),
            Seq<char>,
        >((ProjectModel { alias, path }, ps)),
{
    law_register_then_resolve(ps, alias, path);
    let new = registered(ps, alias, path)->Ok_0;
    assert(new.remove(ps.len() as int) =~= ps);
}

/// Registering keeps the aliases of the list distinct.
pub proof fn law_register_keeps_aliases_distinct(ps: Seq<ProjectModel>, alias: Seq<char>, path: Seq<char>)
    requires
        aliases_distinct(ps),
        registered(ps, alias, path) is Ok,
    ensures
        aliases_distinct(registered(ps, alias, path)->Ok_0),
{
    lemma_alias_index_from(ps, alias, 0);
    let new = registered(ps, alias, path)->Ok_0;
    assert forall|i: int, j: int| 0 <= i < j < new.len() implies new[i].alias != new[j].alias by {
        if j == ps.len() {
            assert(new[i] == ps[i]);
        } else {
            assert(new[i] == ps[i] && new[j] == ps[j]);
        }
    }
}

/// Removing keeps the aliases of the list distinct.
pub proof fn law_remove_keeps_aliases_distinct(ps: Seq<ProjectModel>, arg: Seq<char>)
    requires
        aliases_distinct(ps),
        removed(ps, arg) is Ok,
    ensures
        aliases_distinct(removed(ps, arg)->Ok_0.1),
{
    lemma_alias_index_from(ps, arg, 0);
    let i = resolved_index(ps, arg)->0;
    let rest = ps.remove(i);
    assert forall|a: int, b: int| 0 <= a < b < rest.len() implies rest[a].alias != rest[b].alias by {
        let a0 = if a < i { a } else { a + 1 };
        let b0 = if b < i { b } else { b + 1 };
        assert(rest[a] == ps[a0] && rest[b] == ps[b0]);
    }
}

/// In a list whose aliases are distinct, the alias of a removed bookmark no
/// longer names any bookmark that is left.
pub proof fn law_removed_alias_gone(ps: Seq<ProjectModel>, arg: Seq<char>)
    requires
        aliases_distinct(ps),
        removed(ps, arg) is Ok,
    ensures
        alias_index(removed(ps, arg)->Ok_0.1, removed(ps, arg)->Ok_0.0.alias) is None,
{
    let i = resolved_index(ps, arg)->0;
    let rest = ps.remove(i);
    let a = ps[i].alias;
    lemma_alias_index_from(ps, arg, 0);
    lemma_alias_index_from(rest, a, 0);
    if alias_index(rest, a) is Some {
        let j = alias_index(rest, a)->0;
        if j < i {
            assert(rest[j] == ps[j]);
        } else {
            assert(rest[j] == ps[j + 1]);
        }
    }
}

/// Removing takes out exactly the bookmark that `arg` names and keeps every
/// other bookmark in its place order: those before it keep their numbers,
/// and each one after it moves up by one.
pub proof fn law_remove_keeps_order(ps: Seq<ProjectModel>, arg: Seq<char>)
    requires
        removed(ps, arg) is Ok,
    ensures
        ({
            let i = resolved_index(ps, arg)->0;
            let p = removed(ps, arg)->Ok_0.0;
            let rest = removed(ps, arg)->Ok_0.1;
            &&& 0 <= i < ps.len()
            &&& p == ps[i]
            &&& rest.len() == ps.len() - 1
            &&& forall|k: int| 0 <= k < i ==> #[trigger] rest[k] == ps[k]
            &&& forall|k: int| i <= k < rest.len() ==> #[trigger] rest[k] == ps[k + 1]
        }),
{
    lemma_alias_index_from(ps, arg, 0);
}

/// A line of the listing is marked `*` exactly when its bookmark's alias is
/// the recorded active alias; every other line starts with a space.
pub proof fn law_list_marks_the_active(
    ps: Seq<ProjectModel>,
    i: int,
    active: Option<Seq<char>>,
    home: Seq<char>,
)
    requires
        0 <= i < ps.len(),
    ensures
        list_line(ps, i, active, home).len() > 0,
        list_line(ps, i, active, home)[0] == '*' <==> active == Some(ps[i].alias),
        list_line(ps, i, active, home)[0] != '*' ==> list_line(ps, i, active, home)[0] == ' ',
{
    reveal_strlit("*");
    reveal_strlit(" ");
    reveal_strlit("  ");
    reveal_strlit(" -> ");
}

/// When aliases are distinct, at most one line of the listing is marked `*`.
pub proof fn law_list_marks_at_most_one(
    ps: Seq<ProjectModel>,
    i: int,
    j: int,
    active: Option<Seq<char>>,
    home: Seq<char>,
)
    requires
        aliases_distinct(ps),
        0 <= i < ps.len(),
        0 <= j < ps.len(),
        list_line(ps, i, active, home)[0] == '*',
        list_line(ps, j, active, home)[0] == '*',
    ensures
        i == j,
{
    law_list_marks_the_active(ps, i, active, home);
    law_list_marks_the_active(ps, j, active, home);
    if i < j {
        assert(ps[i].alias != ps[j].alias);
    } else if j < i {
        assert(ps[j].alias != ps[i].alias);
    }
}

/// The number that `list` shows in front of a bookmark names that bookmark
/// for `activate` and `remove`, unless some bookmark has that number as its
/// alias (an alias is tried first).
pub proof fn law_listed_number_resolves(ps: Seq<ProjectModel>, i: int)
    requires
        0 <= i < ps.len(),
        ps.len() <= usize::MAX,
        forall|j: int| 0 <= j < ps.len() ==> (#[trigger] ps[j]).alias != decimal((i + 1) as nat),
    ensures
        resolved_index(ps, decimal((i + 1) as nat)) == Some(i),
{
    lemma_alias_index_from(ps, decimal((i + 1) as nat), 0);
    law_decimal_reads_back((i + 1) as usize);
}

/// `paste` right after `cp` gives back the entry just added and leaves the
/// buffer as it was: the buffer is a stack.
pub proof fn law_paste_undoes_cp(b: Seq<Seq<char>>, entry: Seq<char>)
    ensures
        popped(b.push(entry)) == Ok::<(Seq<char>, Seq<Seq<char>>), Seq<char>>((entry, b)),
{
    assert(b.push(entry).drop_last() =~= b);
}

} // verus!
