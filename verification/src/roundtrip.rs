use vstd::prelude::*;

use crate::json::{
    Json, array_at, char_at, expect_at, is_json_ws, items_at, lemma_skip_ws, members_at,
    object_at, skip_ws_from, string_at, string_body, unescape, value_at,
};
use crate::project::{
    buffer_line, buffer_lines, buffer_text, decode_buffer, strings_among,
    decode_profile, decode_projects, indent_char, indent_text, profile_text, projects_key, projects_text,
    ProjectModel, alias_key, entry_text, path_key, project_line, project_lines, projects_layout,
    quoted, sep,
};
use crate::text::{
    concat_map, escape_char, escape_text, lemma_concat_map_append, lemma_concat_map_first,
    lemma_concat_map_push,
};

verus! {

/// `t` stands in `s` from position `b` on.
pub open spec fn occurs_at(s: Seq<char>, b: int, t: Seq<char>) -> bool {
    &&& 0 <= b
    &&& b + t.len() <= s.len()
    &&& forall|k: int| 0 <= k < t.len() ==> s[b + k] == t[k]
}

/// Every position in `[p, q)` holds whitespace.
pub open spec fn all_ws(s: Seq<char>, p: int, q: int) -> bool {
    forall|i: int| p <= i < q ==> 0 <= i < s.len() && is_json_ws(#[trigger] s[i])
}

pub proof fn lemma_occurs_char(s: Seq<char>, b: int, t: Seq<char>, k: int)
    requires
        occurs_at(s, b, t),
        0 <= k < t.len(),
    ensures
        s[b + k] == t[k],
        0 <= b + k < s.len(),
{
}

pub proof fn lemma_occurs_split(s: Seq<char>, b: int, t1: Seq<char>, t2: Seq<char>)
    requires
        occurs_at(s, b, t1 + t2),
    ensures
        occurs_at(s, b, t1),
        occurs_at(s, b + t1.len(), t2),
{
    assert forall|k: int| 0 <= k < t1.len() implies s[b + k] == t1[k] by {
        assert((t1 + t2)[k] == t1[k]);
    }
    assert forall|k: int| 0 <= k < t2.len() implies s[b + t1.len() + k] == t2[k] by {
        assert((t1 + t2)[t1.len() + k] == t2[k]);
        assert(b + (t1.len() + k) == b + t1.len() + k);
    }
}

pub proof fn lemma_occurs_prefix(s: Seq<char>, b: int, t: Seq<char>, m: int)
    requires
        occurs_at(s, b, t),
        0 <= m <= t.len(),
    ensures
        occurs_at(s, b, t.subrange(0, m)),
{
    assert forall|k: int| 0 <= k < m implies s[b + k] == t.subrange(0, m)[k] by {
        assert(t.subrange(0, m)[k] == t[k]);
    }
}

/// Whitespace up to the first position that holds none.
pub proof fn lemma_skip_to(s: Seq<char>, p: int, q: int)
    requires
        0 <= p <= q <= s.len(),
        all_ws(s, p, q),
        q < s.len() ==> !is_json_ws(s[q]),
    ensures
        skip_ws_from(s, p) == q,
    decreases q - p,
{
    if p < q {
        assert(is_json_ws(s[p]));
        lemma_skip_to(s, p + 1, q);
    }
}

/// The body of a written string reads back as the string.
pub proof fn lemma_body_reads(s: Seq<char>, p: int, acc: Seq<char>, t: Seq<char>)
    requires
        occurs_at(s, p, escape_text(t) + seq!['"']),
    ensures
        string_body(s, p, acc) == (Ok::<Seq<char>, Seq<char>>(acc + t), p + escape_text(t).len() + 1),
    decreases t.len(),
{
    let f = |c: char| escape_char(c);
    if t.len() == 0 {
        assert(escape_text(t) == Seq::<char>::empty());
        lemma_occurs_char(s, p, escape_text(t) + seq!['"'], 0);
        assert(acc + t =~= acc);
    } else {
        let c = t[0];
        let rest = t.drop_first();
        lemma_concat_map_first(t, f);
        assert(escape_text(t) == escape_char(c) + escape_text(rest));
        let e = escape_char(c);
        assert(escape_text(t) + seq!['"'] =~= e + (escape_text(rest) + seq!['"']));
        lemma_occurs_split(s, p, e, escape_text(rest) + seq!['"']);
        lemma_occurs_char(s, p, e, 0);
        if e.len() == 2 {
            lemma_occurs_char(s, p, e, 1);
            let d = e[1];
            assert(unescape(d) =~= seq![c]);
            lemma_body_reads(s, p + 2, acc + seq![c], rest);
            assert(acc + seq![c] + rest =~= acc + t);
            assert(char_at(s, p) == Some('\\'));
            assert(char_at(s, p + 1) == Some(d));
        } else {
            lemma_body_reads(s, p + 1, acc.push(c), rest);
            assert(acc.push(c) + rest =~= acc + t);
        }
    }
}

/// A written string, after whitespace, reads back as the string.
pub proof fn lemma_string_reads(s: Seq<char>, p: int, b: int, t: Seq<char>)
    requires
        p <= b,
        all_ws(s, p, b),
        occurs_at(s, b, quoted(t)),
    ensures
        string_at(s, p) == (Ok::<Seq<char>, Seq<char>>(t), b + quoted(t).len()),
        value_at(s, p) == (Ok::<Json, Seq<char>>(Json::Str(t)), b + quoted(t).len()),
{
    assert(quoted(t) =~= seq!['"'] + (escape_text(t) + seq!['"']));
    lemma_occurs_split(s, b, seq!['"'], escape_text(t) + seq!['"']);
    lemma_occurs_char(s, b, seq!['"'], 0);
    if p < b {
        assert(is_json_ws(s[p]));
    }
    lemma_skip_to(s, p, b);
    lemma_skip_to(s, b, b);
    lemma_body_reads(s, b + 1, seq![], t);
    assert(seq![] + t =~= t);
    assert(expect_at(s, b, '"') == (Ok::<(), Seq<char>>(()), b + 1));
}


/// The JSON object that a project is written as.
pub open spec fn project_json(m: ProjectModel) -> Json {
    Json::Object(seq![(alias_key(), Json::Str(m.alias)), (path_key(), Json::Str(m.path))])
}

/// A written project, after whitespace, reads back as its object.
pub proof fn lemma_entry_reads(s: Seq<char>, p: int, b: int, m: ProjectModel)
    requires
        p <= b,
        all_ws(s, p, b),
        occurs_at(s, b, entry_text(m)),
    ensures
        value_at(s, p) == (Ok::<Json, Seq<char>>(project_json(m)), b + entry_text(m).len()),
{
    crate::project::lemma_keys_plain();
    let qa = quoted(alias_key());
    let va = quoted(m.alias);
    let qp = quoted(path_key());
    let vp = quoted(m.path);
    let t1 = seq!['{'];
    let t2 = t1 + qa;
    let t3 = t2 + seq![':', ' '];
    let t4 = t3 + va;
    let t5 = t4 + seq![',', ' '];
    let t6 = t5 + qp;
    let t7 = t6 + seq![':', ' '];
    let t8 = t7 + vp;
    let t9 = t8 + seq!['}'];
    assert(t9 == entry_text(m));
    lemma_occurs_split(s, b, t8, seq!['}']);
    lemma_occurs_split(s, b, t7, vp);
    lemma_occurs_split(s, b, t6, seq![':', ' ']);
    lemma_occurs_split(s, b, t5, qp);
    lemma_occurs_split(s, b, t4, seq![',', ' ']);
    lemma_occurs_split(s, b, t3, va);
    lemma_occurs_split(s, b, t2, seq![':', ' ']);
    lemma_occurs_split(s, b, t1, qa);
    let b1 = b + 1;
    let b2 = b1 + qa.len();
    let b3 = b2 + 2;
    let b4 = b3 + va.len();
    let b5 = b4 + 2;
    let b6 = b5 + qp.len();
    let b7 = b6 + 2;
    let b8 = b7 + vp.len();
    assert(qa.len() == 7);
    assert(qp.len() == 6);
    lemma_occurs_char(s, b, t1, 0);
    lemma_occurs_char(s, b2, seq![':', ' '], 0);
    lemma_occurs_char(s, b2, seq![':', ' '], 1);
    lemma_occurs_char(s, b4, seq![',', ' '], 0);
    lemma_occurs_char(s, b4, seq![',', ' '], 1);
    lemma_occurs_char(s, b6, seq![':', ' '], 0);
    lemma_occurs_char(s, b6, seq![':', ' '], 1);
    lemma_occurs_char(s, b8, seq!['}'], 0);
    lemma_occurs_char(s, b1, qa, 0);
    lemma_occurs_char(s, b5, qp, 0);
    if p < b {
        assert(is_json_ws(s[p]));
    }
    // The object opens.
    lemma_skip_to(s, p, b);
    lemma_skip_to(s, b, b);
    lemma_skip_to(s, b1, b1);
    assert(expect_at(s, b, '{') == (Ok::<(), Seq<char>>(()), b1));
    assert(object_at(s, b) == members_at(s, b1, seq![]));
    assert(value_at(s, p) == object_at(s, b));
    // The alias member.
    lemma_string_reads(s, b1, b1, alias_key());
    lemma_skip_to(s, b2, b2);
    assert(expect_at(s, b2, ':') == (Ok::<(), Seq<char>>(()), b2 + 1));
    lemma_string_reads(s, b2 + 1, b3, m.alias);
    lemma_skip_to(s, b4, b4);
    let acc1 = seq![(alias_key(), Json::Str(m.alias))];
    assert(members_at(s, b1, seq![]) == members_at(s, b4 + 1, acc1));
    // The path member.
    lemma_string_reads(s, b4 + 1, b5, path_key());
    lemma_skip_to(s, b6, b6);
    assert(expect_at(s, b6, ':') == (Ok::<(), Seq<char>>(()), b6 + 1));
    lemma_string_reads(s, b6 + 1, b7, m.path);
    lemma_skip_to(s, b8, b8);
    assert(acc1.push((path_key(), Json::Str(m.path))) =~= seq![
        (alias_key(), Json::Str(m.alias)),
        (path_key(), Json::Str(m.path)),
    ]);
    assert(members_at(s, b4 + 1, acc1) == (Ok::<Json, Seq<char>>(project_json(m)), b8 + 1));
}


/// Every character of `pad` is a space.
pub open spec fn spaces(pad: Seq<char>) -> bool {
    forall|k: int| 0 <= k < pad.len() ==> #[trigger] pad[k] == ' '
}

/// The objects that a list of projects is written as.
pub open spec fn project_jsons(ps: Seq<ProjectModel>) -> Seq<Json> {
    ps.map_values(|m: ProjectModel| project_json(m))
}

pub proof fn lemma_lines_prefix(ps: Seq<ProjectModel>, k: nat, n: nat, pad: Seq<char>)
    requires
        k <= n,
    ensures
        project_lines(ps, k, pad).len() <= project_lines(ps, n, pad).len(),
        project_lines(ps, n, pad).subrange(0, project_lines(ps, k, pad).len() as int)
            == project_lines(ps, k, pad),
    decreases n,
{
    if k < n {
        lemma_lines_prefix(ps, k, (n - 1) as nat, pad);
        let a = project_lines(ps, (n - 1) as nat, pad);
        let l = project_lines(ps, k, pad);
        assert((a + project_line(ps, n - 1, pad)).subrange(0, l.len() as int) =~= a.subrange(
            0,
            l.len() as int,
        ));
    } else {
        assert(project_lines(ps, n, pad).subrange(0, project_lines(ps, n, pad).len() as int)
            =~= project_lines(ps, n, pad));
    }
}

/// Where line `i` of a written list starts.
pub open spec fn line_start(ps: Seq<ProjectModel>, pad: Seq<char>, b: int, i: int) -> int {
    b + 2 + project_lines(ps, i as nat, pad).len()
}

/// Where the object on line `i` starts.
pub open spec fn brace_at(ps: Seq<ProjectModel>, pad: Seq<char>, b: int, i: int) -> int {
    line_start(ps, pad, b, i) + pad.len() + 2
}

/// What stands on line `i` of a written list, piece by piece.
pub proof fn lemma_line_at(s: Seq<char>, b: int, ps: Seq<ProjectModel>, pad: Seq<char>, i: int)
    requires
        occurs_at(s, b, projects_layout(ps, pad)),
        0 <= i < ps.len(),
    ensures
        occurs_at(s, line_start(ps, pad, b, i), pad),
        occurs_at(s, line_start(ps, pad, b, i) + pad.len(), seq![' ', ' ']),
        occurs_at(s, brace_at(ps, pad, b, i), entry_text(ps[i])),
        occurs_at(
            s,
            brace_at(ps, pad, b, i) + entry_text(ps[i]).len(),
            sep(i, ps.len() as int) + seq!['\n'],
        ),
        line_start(ps, pad, b, i + 1) == brace_at(ps, pad, b, i) + entry_text(ps[i]).len() + sep(
            i,
            ps.len() as int,
        ).len() + 1,
{
    let n = ps.len();
    let lines = project_lines(ps, n, pad);
    assert(projects_layout(ps, pad) =~= (seq!['[', '\n'] + lines + pad) + seq![']']);
    lemma_occurs_split(s, b, seq!['[', '\n'] + lines + pad, seq![']']);
    lemma_occurs_split(s, b, seq!['[', '\n'] + lines, pad);
    lemma_occurs_split(s, b, seq!['[', '\n'], lines);
    lemma_lines_prefix(ps, (i + 1) as nat, n, pad);
    let upto = project_lines(ps, (i + 1) as nat, pad);
    lemma_occurs_prefix(s, b + 2, lines, upto.len() as int);
    assert(upto == project_lines(ps, i as nat, pad) + project_line(ps, i, pad));
    lemma_occurs_split(s, b + 2, project_lines(ps, i as nat, pad), project_line(ps, i, pad));
    let st = line_start(ps, pad, b, i);
    let e = entry_text(ps[i]);
    assert(project_line(ps, i, pad) =~= ((pad + seq![' ', ' ']) + e) + (sep(i, n as int) + seq![
        '\n',
    ]));
    lemma_occurs_split(s, st, (pad + seq![' ', ' ']) + e, sep(i, n as int) + seq!['\n']);
    lemma_occurs_split(s, st, pad + seq![' ', ' '], e);
    lemma_occurs_split(s, st, pad, seq![' ', ' ']);
}

/// The items of a written list, from line `i` on, read back as the objects of
/// all its projects.
pub proof fn lemma_items_read(
    s: Seq<char>,
    b: int,
    ps: Seq<ProjectModel>,
    pad: Seq<char>,
    i: int,
    p: int,
    acc: Seq<Json>,
)
    requires
        occurs_at(s, b, projects_layout(ps, pad)),
        spaces(pad),
        0 <= i < ps.len(),
        p <= brace_at(ps, pad, b, i),
        all_ws(s, p, brace_at(ps, pad, b, i)),
        acc == project_jsons(ps).take(i),
    ensures
        items_at(s, p, acc) == (
            Ok::<Json, Seq<char>>(Json::Array(project_jsons(ps))),
            b + projects_layout(ps, pad).len(),
        ),
    decreases ps.len() - i,
{
    let n = ps.len() as int;
    let br = brace_at(ps, pad, b, i);
    lemma_line_at(s, b, ps, pad, i);
    lemma_entry_reads(s, p, br, ps[i]);
    let e = br + entry_text(ps[i]).len();
    let x = project_json(ps[i]);
    assert(acc.push(x) =~= project_jsons(ps).take(i + 1));
    if i + 1 < n {
        lemma_occurs_char(s, e, sep(i, n) + seq!['\n'], 0);
        lemma_occurs_char(s, e, sep(i, n) + seq!['\n'], 1);
        lemma_skip_to(s, e, e);
        assert(items_at(s, p, acc) == items_at(s, e + 1, acc.push(x)));
        lemma_line_at(s, b, ps, pad, i + 1);
        let st = line_start(ps, pad, b, i + 1);
        assert forall|j: int| e + 1 <= j < brace_at(ps, pad, b, i + 1) implies 0 <= j < s.len()
            && is_json_ws(#[trigger] s[j]) by {
            if j == e + 1 {
            } else if j < st + pad.len() {
                lemma_occurs_char(s, st, pad, j - st);
            } else {
                lemma_occurs_char(s, st + pad.len(), seq![' ', ' '], j - st - pad.len());
            }
        }
        lemma_items_read(s, b, ps, pad, i + 1, e + 1, acc.push(x));
    } else {
        assert(sep(i, n) + seq!['\n'] =~= seq!['\n']);
        lemma_occurs_char(s, e, seq!['\n'], 0);
        let lines = project_lines(ps, n as nat, pad);
        assert(projects_layout(ps, pad) =~= (seq!['[', '\n'] + lines + pad) + seq![']']);
        lemma_occurs_split(s, b, seq!['[', '\n'] + lines + pad, seq![']']);
        lemma_occurs_split(s, b, seq!['[', '\n'] + lines, pad);
        let close = b + 2 + lines.len() + pad.len();
        assert(line_start(ps, pad, b, n) == e + 1);
        lemma_occurs_char(s, close, seq![']'], 0);
        assert forall|j: int| e <= j < close implies 0 <= j < s.len() && is_json_ws(#[trigger] s[j]) by {
            if j > e {
                lemma_occurs_char(s, e + 1, pad, j - e - 1);
            }
        }
        lemma_skip_to(s, e, close);
        assert(acc.push(x) =~= project_jsons(ps));
    }
}


/// A written list of projects, after whitespace, reads back as the array of
/// their objects.
pub proof fn lemma_layout_reads(s: Seq<char>, p: int, b: int, ps: Seq<ProjectModel>, pad: Seq<char>)
    requires
        occurs_at(s, b, projects_layout(ps, pad)),
        spaces(pad),
        p <= b,
        all_ws(s, p, b),
    ensures
        value_at(s, p) == (
            Ok::<Json, Seq<char>>(Json::Array(project_jsons(ps))),
            b + projects_layout(ps, pad).len(),
        ),
{
    let n = ps.len();
    let lines = project_lines(ps, n, pad);
    assert(projects_layout(ps, pad) =~= (seq!['[', '\n'] + lines + pad) + seq![']']);
    lemma_occurs_split(s, b, seq!['[', '\n'] + lines + pad, seq![']']);
    lemma_occurs_split(s, b, seq!['[', '\n'] + lines, pad);
    lemma_occurs_split(s, b, seq!['[', '\n'], lines);
    lemma_occurs_char(s, b, seq!['[', '\n'], 0);
    lemma_occurs_char(s, b, seq!['[', '\n'], 1);
    if p < b {
        assert(is_json_ws(s[p]));
    }
    lemma_skip_to(s, p, b);
    lemma_skip_to(s, b, b);
    assert(value_at(s, p) == array_at(s, b));
    assert(expect_at(s, b, '[') == (Ok::<(), Seq<char>>(()), b + 1));
    if n == 0 {
        let close = b + 2 + pad.len();
        assert(lines.len() == 0);
        lemma_occurs_char(s, close, seq![']'], 0);
        assert forall|j: int| b + 1 <= j < close implies 0 <= j < s.len() && is_json_ws(#[trigger] s[j]) by {
            if j > b + 1 {
                lemma_occurs_char(s, b + 2, pad, j - b - 2);
            }
        }
        lemma_skip_to(s, b + 1, close);
        assert(project_jsons(ps) =~= Seq::<Json>::empty());
    } else {
        lemma_line_at(s, b, ps, pad, 0);
        let br = brace_at(ps, pad, b, 0);
        let st = line_start(ps, pad, b, 0);
        assert(st == b + 2);
        lemma_occurs_char(s, br, entry_text(ps[0]), 0);
        assert forall|j: int| b + 1 <= j < br implies 0 <= j < s.len() && is_json_ws(#[trigger] s[j]) by {
            if j == b + 1 {
            } else if j < st + pad.len() {
                lemma_occurs_char(s, st, pad, j - st);
            } else {
                lemma_occurs_char(s, st + pad.len(), seq![' ', ' '], j - st - pad.len());
            }
        }
        lemma_skip_to(s, b + 1, br);
        assert(project_jsons(ps).take(0) =~= Seq::<Json>::empty());
        lemma_items_read(s, b, ps, pad, 0, br, seq![]);
    }
}

/// The objects that projects are written as read back as the same projects.
pub proof fn lemma_projects_decode(ps: Seq<ProjectModel>)
    ensures
        crate::project::items_to_projects(project_jsons(ps)) == Ok::<Seq<ProjectModel>, Seq<char>>(ps),
    decreases ps.len(),
{
    if ps.len() > 0 {
        lemma_projects_decode(ps.drop_last());
        assert(project_jsons(ps).drop_last() =~= project_jsons(ps.drop_last()));
        let m = ps.last();
        let pairs = seq![(alias_key(), Json::Str(m.alias)), (path_key(), Json::Str(m.path))];
        assert(pairs.drop_last() =~= seq![(alias_key(), Json::Str(m.alias))]);
        assert(alias_key() != path_key()) by {
            assert(alias_key().len() != path_key().len());
        }
        assert(seq![(alias_key(), Json::Str(m.alias))].drop_last() =~= Seq::<(Seq<char>, Json)>::empty());
        let one = seq![(alias_key(), Json::Str(m.alias))];
        assert(one.last() == (alias_key(), Json::Str(m.alias)));
        assert(crate::project::last_str_for(one, alias_key()) == Some(m.alias));
        assert(pairs.last() == (path_key(), Json::Str(m.path)));
        assert(crate::project::last_str_for(pairs, alias_key()) == crate::project::last_str_for(
            one,
            alias_key(),
        ));
        assert(crate::project::last_str_for(pairs, path_key()) == Some(m.path));
        assert(crate::project::object_to_project(project_json(m)) == Ok::<
            ProjectModel,
            Seq<char>,
        >(m));
        assert(project_jsons(ps).last() == project_json(m));
        assert(ps.drop_last().push(m) =~= ps);
    } else {
        assert(ps =~= Seq::<ProjectModel>::empty());
    }
}


/// What `projects_to_json` writes, `projects_from_text` reads back: the same
/// projects in the same order. The text starts with `[` and ends with `]`, so
/// trimming it changes nothing.
pub proof fn law_projects_roundtrip(ps: Seq<ProjectModel>)
    ensures
        decode_projects(projects_text(ps)) == Ok::<Seq<ProjectModel>, Seq<char>>(ps),
        projects_text(ps).len() > 0,
        projects_text(ps)[0] == '[',
        projects_text(ps).last() == ']',
{
    let t = projects_text(ps);
    assert(occurs_at(t, 0, projects_layout(ps, seq![])));
    assert(spaces(seq![]));
    lemma_layout_reads(t, 0, 0, ps, seq![]);
    lemma_projects_decode(ps);
}

pub proof fn lemma_concat_map_single(c: char, f: spec_fn(char) -> Seq<char>)
    ensures
        concat_map(seq![c], f) == f(c),
{
    assert(seq![c].drop_last() =~= Seq::<char>::empty());
    assert(concat_map(Seq::<char>::empty(), f) == Seq::<char>::empty());
    assert(Seq::<char>::empty() + f(c) =~= f(c));
}

pub proof fn lemma_escape_no_newline(t: Seq<char>)
    ensures
        forall|i: int| 0 <= i < escape_text(t).len() ==> #[trigger] escape_text(t)[i] != '\n',
    decreases t.len(),
{
    if t.len() > 0 {
        lemma_escape_no_newline(t.drop_last());
        assert(t.drop_last().push(t.last()) =~= t);
        lemma_concat_map_push(t.drop_last(), t.last(), |c: char| escape_char(c));
        let a = escape_text(t.drop_last());
        let e = escape_char(t.last());
        assert(escape_text(t) == a + e);
        assert forall|i: int| 0 <= i < escape_text(t).len() implies #[trigger] escape_text(t)[i]
            != '\n' by {
            if i >= a.len() {
                assert(escape_text(t)[i] == e[i - a.len()]);
            } else {
                assert(escape_text(t)[i] == a[i]);
            }
        }
    }
}

/// Text with no line break is left as it is by indenting.
pub proof fn lemma_indent_plain(x: Seq<char>)
    requires
        forall|i: int| 0 <= i < x.len() ==> #[trigger] x[i] != '\n',
    ensures
        concat_map(x, |c: char| indent_char(c)) == x,
    decreases x.len(),
{
    if x.len() > 0 {
        lemma_indent_plain(x.drop_last());
        assert(x.drop_last() + seq![x.last()] =~= x);
    }
}

pub proof fn lemma_entry_no_newline(m: ProjectModel)
    ensures
        forall|i: int| 0 <= i < entry_text(m).len() ==> #[trigger] entry_text(m)[i] != '\n',
{
    crate::project::lemma_keys_plain();
    lemma_escape_no_newline(m.alias);
    lemma_escape_no_newline(m.path);
    let e = entry_text(m);
    assert forall|i: int| 0 <= i < e.len() implies #[trigger] e[i] != '\n' by {
        let qa = quoted(alias_key());
        let va = quoted(m.alias);
        let qp = quoted(path_key());
        let vp = quoted(m.path);
        let ea = escape_text(m.alias);
        let ep = escape_text(m.path);
        if i >= 1 + qa.len() + 2 && i < 1 + qa.len() + 2 + va.len() {
            let k = i - (1 + qa.len() + 2);
            if 0 < k < va.len() - 1 {
                assert(va[k] == ea[k - 1]);
            }
        }
        if i >= 1 + qa.len() + 2 + va.len() + 2 + qp.len() + 2 && i < 1 + qa.len() + 2 + va.len()
            + 2 + qp.len() + 2 + vp.len() {
            let k = i - (1 + qa.len() + 2 + va.len() + 2 + qp.len() + 2);
            if 0 < k < vp.len() - 1 {
                assert(vp[k] == ep[k - 1]);
            }
        }
    }
}

#[verifier::spinoff_prover]
#[verifier::rlimit(40)]
pub proof fn lemma_indent_lines(ps: Seq<ProjectModel>, k: nat)
    requires
        k <= ps.len(),
    ensures
        seq!['[', '\n', ' ', ' '] + concat_map(project_lines(ps, k, seq![]), |c: char| indent_char(c))
            == seq!['[', '\n'] + project_lines(ps, k, seq![' ', ' ']) + seq![' ', ' '],
    decreases k,
{
    let g = |c: char| indent_char(c);
    let h = seq!['[', '\n', ' ', ' '];
    let open = seq!['[', '\n'];
    let two = seq![' ', ' '];
    if k == 0 {
        assert(concat_map(Seq::<char>::empty(), g) == Seq::<char>::empty());
        assert(h + concat_map(project_lines(ps, k, seq![]), g) =~= open + project_lines(ps, k, two)
            + two);
    } else {
        let i = k - 1;
        lemma_indent_lines(ps, (k - 1) as nat);
        let prev = project_lines(ps, (k - 1) as nat, seq![]);
        let prev2 = project_lines(ps, (k - 1) as nat, two);
        let line = project_line(ps, i, seq![]);
        let e = entry_text(ps[i]);
        let sp = sep(i, ps.len() as int);
        let body = two + e + sp;
        assert(line =~= body + seq!['\n']);
        lemma_concat_map_append(prev, line, g);
        lemma_concat_map_append(body, seq!['\n'], g);
        lemma_entry_no_newline(ps[i]);
        assert forall|j: int| 0 <= j < body.len() implies #[trigger] body[j] != '\n' by {
            if 2 <= j < 2 + e.len() {
                assert(body[j] == e[j - 2]);
            }
        }
        lemma_indent_plain(body);
        lemma_concat_map_single('\n', g);
        let nl = seq!['\n', ' ', ' '];
        assert(g('\n') == nl);
        assert(concat_map(line, g) == body + nl);
        assert(project_lines(ps, k, seq![]) == prev + line);
        assert(concat_map(project_lines(ps, k, seq![]), g) == concat_map(prev, g) + (body + nl));
        assert(h + concat_map(prev, g) == open + prev2 + two);
        assert(project_lines(ps, k, two) == prev2 + project_line(ps, i, two));
        assert(project_line(ps, i, two) =~= two + body + seq!['\n']);
        assert(h + (concat_map(prev, g) + (body + nl)) =~= (h + concat_map(prev, g)) + (body + nl));
        assert((open + prev2 + two) + (body + nl) =~= open + (prev2 + (two + body + seq!['\n']))
            + two);
    }
}

/// Indenting the written list by two spaces gives the list written with an
/// extra indent of two spaces.
pub proof fn lemma_indent_projects(ps: Seq<ProjectModel>)
    ensures
        indent_text(projects_text(ps)) == seq![' ', ' '] + projects_layout(ps, seq![' ', ' ']),
{
    let g = |c: char| indent_char(c);
    let two = seq![' ', ' '];
    let lines = project_lines(ps, ps.len(), seq![]);
    let lines2 = project_lines(ps, ps.len(), two);
    lemma_indent_lines(ps, ps.len());
    let t = projects_text(ps);
    assert(t =~= seq!['['] + (seq!['\n'] + (lines + seq![']'])));
    lemma_concat_map_append(seq!['['], seq!['\n'] + (lines + seq![']']), g);
    lemma_concat_map_append(seq!['\n'], lines + seq![']'], g);
    lemma_concat_map_append(lines, seq![']'], g);
    lemma_concat_map_single('[', g);
    lemma_concat_map_single('\n', g);
    lemma_concat_map_single(']', g);
    let cl = concat_map(lines, g);
    assert(concat_map(t, g) == seq!['['] + (seq!['\n', ' ', ' '] + (cl + seq![']'])));
    assert(seq!['[', '\n', ' ', ' '] + cl == seq!['[', '\n'] + lines2 + two);
    assert(concat_map(t, g) =~= (seq!['[', '\n', ' ', ' '] + cl) + seq![']']);
    assert(projects_layout(ps, two) == seq!['[', '\n'] + lines2 + two + seq![']']);
    assert(indent_text(t) =~= two + projects_layout(ps, two));
}


/// What `profile_to_json` writes, `profile_from_text` reads back: the same
/// projects in the same order. The text starts with `{` and ends with `}`, so
/// trimming it changes nothing.
#[verifier::spinoff_prover]
#[verifier::rlimit(60)]
pub proof fn law_profile_roundtrip(ps: Seq<ProjectModel>)
    ensures
        decode_profile(profile_text(ps)) == Ok::<Seq<ProjectModel>, Seq<char>>(ps),
        profile_text(ps).len() > 0,
        profile_text(ps)[0] == '{',
        profile_text(ps).last() == '}',
{
    let two = seq![' ', ' '];
    let s = profile_text(ps);
    let head = seq!['{', '\n', ' ', ' '];
    let qk = quoted(projects_key());
    let colon = seq![':', ' '];
    let layout = projects_layout(ps, two);
    let tail = seq!['\n', '}'];
    crate::project::lemma_keys_plain();
    lemma_indent_projects(ps);
    assert(s =~= head + qk + colon + two + layout + tail);
    assert(occurs_at(s, 0, s));
    lemma_occurs_split(s, 0, head + qk + colon + two + layout, tail);
    lemma_occurs_split(s, 0, head + qk + colon + two, layout);
    lemma_occurs_split(s, 0, head + qk + colon, two);
    lemma_occurs_split(s, 0, head + qk, colon);
    lemma_occurs_split(s, 0, head, qk);
    assert(qk.len() == 10);
    let endl: int = 18 + layout.len() as int;
    lemma_occurs_char(s, 0, head, 0);
    lemma_occurs_char(s, 0, head, 1);
    lemma_occurs_char(s, 0, head, 2);
    lemma_occurs_char(s, 0, head, 3);
    lemma_occurs_char(s, 4, qk, 0);
    lemma_occurs_char(s, 14, colon, 0);
    lemma_occurs_char(s, 14, colon, 1);
    lemma_occurs_char(s, 16, two, 0);
    lemma_occurs_char(s, 16, two, 1);
    lemma_occurs_char(s, endl, tail, 0);
    lemma_occurs_char(s, endl, tail, 1);
    // The object opens, and its one key is read.
    lemma_skip_to(s, 0, 0);
    assert(expect_at(s, 0, '{') == (Ok::<(), Seq<char>>(()), 1int));
    lemma_skip_to(s, 1, 4);
    assert(object_at(s, 0) == members_at(s, 4, seq![]));
    lemma_string_reads(s, 4, 4, projects_key());
    lemma_skip_to(s, 14, 14);
    assert(expect_at(s, 14, ':') == (Ok::<(), Seq<char>>(()), 15int));
    // Its value is the indented list.
    assert(spaces(two));
    lemma_layout_reads(s, 15, 18, ps, two);
    lemma_skip_to(s, endl, endl + 1);
    let arr = Json::Array(project_jsons(ps));
    assert(seq![].push((projects_key(), arr)) =~= seq![(projects_key(), arr)]);
    assert(members_at(s, 4, seq![]) == (
        Ok::<Json, Seq<char>>(Json::Object(seq![(projects_key(), arr)])),
        endl + 2,
    ));
    assert(value_at(s, 0) == object_at(s, 0));
    assert(crate::project::first_value_for(seq![(projects_key(), arr)], projects_key()) == Some(arr));
    lemma_projects_decode(ps);
}


pub proof fn lemma_buffer_lines_prefix(b: Seq<Seq<char>>, k: nat, n: nat)
    requires
        k <= n,
    ensures
        buffer_lines(b, k).len() <= buffer_lines(b, n).len(),
        buffer_lines(b, n).subrange(0, buffer_lines(b, k).len() as int) == buffer_lines(b, k),
    decreases n,
{
    if k < n {
        lemma_buffer_lines_prefix(b, k, (n - 1) as nat);
        let a = buffer_lines(b, (n - 1) as nat);
        let l = buffer_lines(b, k);
        assert((a + buffer_line(b, n - 1)).subrange(0, l.len() as int) =~= a.subrange(
            0,
            l.len() as int,
        ));
    } else {
        assert(buffer_lines(b, n).subrange(0, buffer_lines(b, n).len() as int) =~= buffer_lines(
            b,
            n,
        ));
    }
}

/// Where line `i` of a written buffer starts.
pub open spec fn buffer_line_start(b: Seq<Seq<char>>, i: int) -> int {
    2 + buffer_lines(b, i as nat).len() as int
}

/// What stands on line `i` of a written buffer, piece by piece.
pub proof fn lemma_buffer_line_at(s: Seq<char>, b: Seq<Seq<char>>, i: int)
    requires
        s == buffer_text(b),
        0 <= i < b.len(),
    ensures
        occurs_at(s, buffer_line_start(b, i), seq![' ', ' ']),
        occurs_at(s, buffer_line_start(b, i) + 2, quoted(b[i])),
        occurs_at(
            s,
            buffer_line_start(b, i) + 2 + quoted(b[i]).len(),
            crate::project::sep(i, b.len() as int) + seq!['\n'],
        ),
        buffer_line_start(b, i + 1) == buffer_line_start(b, i) + 2 + quoted(b[i]).len()
            + crate::project::sep(i, b.len() as int).len() + 1,
{
    let n = b.len();
    let lines = buffer_lines(b, n);
    assert(s =~= (seq!['[', '\n'] + lines) + seq![']']);
    assert(occurs_at(s, 0, s));
    lemma_occurs_split(s, 0, seq!['[', '\n'] + lines, seq![']']);
    lemma_occurs_split(s, 0, seq!['[', '\n'], lines);
    lemma_buffer_lines_prefix(b, (i + 1) as nat, n);
    let upto = buffer_lines(b, (i + 1) as nat);
    lemma_occurs_prefix(s, 2, lines, upto.len() as int);
    assert(upto == buffer_lines(b, i as nat) + buffer_line(b, i));
    lemma_occurs_split(s, 2, buffer_lines(b, i as nat), buffer_line(b, i));
    let st = buffer_line_start(b, i);
    let sp = crate::project::sep(i, n as int) + seq!['\n'];
    assert(buffer_line(b, i) =~= (seq![' ', ' '] + quoted(b[i])) + sp);
    lemma_occurs_split(s, st, seq![' ', ' '] + quoted(b[i]), sp);
    lemma_occurs_split(s, st, seq![' ', ' '], quoted(b[i]));
}

/// The strings that a buffer is written as.
pub open spec fn buffer_jsons(b: Seq<Seq<char>>) -> Seq<Json> {
    b.map_values(|t: Seq<char>| Json::Str(t))
}

#[verifier::spinoff_prover]
#[verifier::rlimit(60)]
pub proof fn lemma_buffer_items_read(s: Seq<char>, b: Seq<Seq<char>>, i: int, p: int, acc: Seq<Json>)
    requires
        s == buffer_text(b),
        0 <= i < b.len(),
        p <= buffer_line_start(b, i) + 2,
        all_ws(s, p, buffer_line_start(b, i) + 2),
        acc == buffer_jsons(b).take(i),
    ensures
        items_at(s, p, acc) == (Ok::<Json, Seq<char>>(Json::Array(buffer_jsons(b))), s.len() as int),
    decreases b.len() - i,
{
    let n = b.len() as int;
    let st = buffer_line_start(b, i);
    lemma_buffer_line_at(s, b, i);
    lemma_string_reads(s, p, st + 2, b[i]);
    let e = st + 2 + quoted(b[i]).len();
    let x = Json::Str(b[i]);
    assert(acc.push(x) =~= buffer_jsons(b).take(i + 1));
    let sp = crate::project::sep(i, n) + seq!['\n'];
    if i + 1 < n {
        lemma_occurs_char(s, e, sp, 0);
        lemma_occurs_char(s, e, sp, 1);
        lemma_skip_to(s, e, e);
        assert(items_at(s, p, acc) == items_at(s, e + 1, acc.push(x)));
        lemma_buffer_line_at(s, b, i + 1);
        let st2 = buffer_line_start(b, i + 1);
        assert forall|j: int| e + 1 <= j < st2 + 2 implies 0 <= j < s.len() && is_json_ws(
            #[trigger] s[j],
        ) by {
            if j > e + 1 {
                lemma_occurs_char(s, st2, seq![' ', ' '], j - st2);
            }
        }
        lemma_buffer_items_read(s, b, i + 1, e + 1, acc.push(x));
    } else {
        assert(sp =~= seq!['\n']);
        lemma_occurs_char(s, e, seq!['\n'], 0);
        let lines = buffer_lines(b, n as nat);
        assert(s =~= (seq!['[', '\n'] + lines) + seq![']']);
        assert(occurs_at(s, 0, s));
        lemma_occurs_split(s, 0, seq!['[', '\n'] + lines, seq![']']);
        let close: int = 2 + lines.len() as int;
        assert(buffer_line_start(b, n) == e + 1);
        lemma_occurs_char(s, close, seq![']'], 0);
        lemma_skip_to(s, e, close);
        assert(acc.push(x) =~= buffer_jsons(b));
    }
}

/// The strings among the written items are the buffer itself.
pub proof fn lemma_buffer_decode(b: Seq<Seq<char>>)
    ensures
        strings_among(buffer_jsons(b)) == b,
    decreases b.len(),
{
    if b.len() > 0 {
        lemma_buffer_decode(b.drop_last());
        assert(buffer_jsons(b).drop_last() =~= buffer_jsons(b.drop_last()));
        assert(buffer_jsons(b).last() == Json::Str(b.last()));
        assert(b.drop_last().push(b.last()) =~= b);
    } else {
        assert(b =~= Seq::<Seq<char>>::empty());
    }
}

/// What `buffer_to_json` writes, `buffer_from_text` reads back: the same
/// entries in the same order. The text starts with `[` and ends with `]`, so
/// trimming it changes nothing.
#[verifier::spinoff_prover]
pub proof fn law_buffer_roundtrip(b: Seq<Seq<char>>)
    ensures
        decode_buffer(buffer_text(b)) == Ok::<Seq<Seq<char>>, Seq<char>>(b),
        buffer_text(b).len() > 0,
        buffer_text(b)[0] == '[',
        buffer_text(b).last() == ']',
{
    let s = buffer_text(b);
    let n = b.len();
    let lines = buffer_lines(b, n);
    assert(s =~= (seq!['[', '\n'] + lines) + seq![']']);
    assert(occurs_at(s, 0, s));
    lemma_occurs_split(s, 0, seq!['[', '\n'] + lines, seq![']']);
    lemma_occurs_split(s, 0, seq!['[', '\n'], lines);
    lemma_occurs_char(s, 0, seq!['[', '\n'], 0);
    lemma_occurs_char(s, 0, seq!['[', '\n'], 1);
    lemma_skip_to(s, 0, 0);
    assert(value_at(s, 0) == array_at(s, 0));
    assert(expect_at(s, 0, '[') == (Ok::<(), Seq<char>>(()), 1int));
    if n == 0 {
        lemma_occurs_char(s, 2, seq![']'], 0);
        lemma_skip_to(s, 1, 2);
        assert(buffer_jsons(b) =~= Seq::<Json>::empty());
    } else {
        lemma_buffer_line_at(s, b, 0);
        lemma_occurs_char(s, 2, seq![' ', ' '], 0);
        lemma_occurs_char(s, 2, seq![' ', ' '], 1);
        lemma_occurs_char(s, 4, quoted(b[0]), 0);
        lemma_skip_to(s, 1, 4);
        assert(buffer_jsons(b).take(0) =~= Seq::<Json>::empty());
        lemma_buffer_items_read(s, b, 0, 4, seq![]);
    }
    lemma_buffer_decode(b);
}

} // verus!
