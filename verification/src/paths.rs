use vstd::prelude::*;

verus! {

/// `name` joined to `base` as `Path::join` does on Unix: an absolute `name`
/// replaces `base`; otherwise a `/` goes between them unless `base` is empty
/// or already ends with one.
pub open spec fn joined(base: Seq<char>, name: Seq<char>) -> Seq<char> {
    if name.len() > 0 && name[0] == '/' {
        name
    } else if base.len() == 0 || base.last() == '/' {
        base + name
    } else {
        base.push('/') + name
    }
}

/// Whether `p` is an absolute path.
pub open spec fn is_absolute(p: Seq<char>) -> bool {
    p.len() > 0 && p[0] == '/'
}

/// Whether `p` is an absolute path (it starts with `/`).
pub fn is_absolute_path(p: &str) -> (b: bool)
    ensures
        b == is_absolute(p@),
        b == (p@.len() > 0 && p@[0] == '/'),
{
    let chars = crate::text::chars_of(p);
    chars.len() > 0 && chars[0] == '/'
}

/// Joins `name` to `base` as `Path::join` does on Unix.
pub fn join_path(base: &str, name: &str) -> (r: String)
    ensures
        r@ == joined(base@, name@),
{
    let n = crate::text::chars_of(name);
    if n.len() > 0 && n[0] == '/' {
        return String::from_str(name);
    }
    let b = crate::text::chars_of(base);
    let mut r = String::from_str(base);
    if b.len() > 0 && b[b.len() - 1] != '/' {
        r.push('/');
    }
    r.append(name);
    r
}

/// A path is absolute exactly when it starts with `/`; so `./x`, `x` and the
/// empty path are relative.
pub proof fn law_absolute_iff_leading_slash(p: Seq<char>)
    ensures
        is_absolute(p) <==> (p.len() > 0 && p[0] == '/'),
        p.len() > 0 && p[0] != '/' ==> !is_absolute(p),
{
}

/// Joining a relative name to an absolute directory gives an absolute path
/// that starts with the directory and ends with the name; joining an
/// absolute name gives the name itself.
pub proof fn law_join_relative_to_absolute(base: Seq<char>, name: Seq<char>)
    ensures
        name.len() > 0 && name[0] == '/' ==> joined(base, name) == name,
        !(name.len() > 0 && name[0] == '/') ==> {
            let j = joined(base, name);
            &&& j.len() >= base.len() + name.len()
            &&& j.take(base.len() as int) == base
            &&& j.skip(j.len() - name.len()) == name
            &&& (base.len() > 0 && base[0] == '/' ==> j[0] == '/')
        },
{
    let j = joined(base, name);
    if !(name.len() > 0 && name[0] == '/') {
        if base.len() == 0 || base.last() == '/' {
            assert(j.take(base.len() as int) =~= base);
            assert(j.skip(j.len() - name.len()) =~= name);
        } else {
            assert(j.take(base.len() as int) =~= base);
            assert(j.skip(j.len() - name.len()) =~= name);
        }
        if base.len() > 0 {
            assert(j[0] == j.take(base.len() as int)[0]);
        }
    }
}

/// The state directory: `.projenv` under the home directory.
pub open spec fn state_dir_path(home: Seq<char>) -> Seq<char> {
    joined(home, ".projenv"@)
}

/// The state directory: `.projenv` under `home` (the caller passes `.` when
/// `HOME` is unset).
pub fn state_dir(home: &str) -> (r: String)
    ensures
        r@ == state_dir_path(home@),
{
    join_path(home, ".projenv")
}

/// The file that holds the bookmarks.
pub fn projects_file(home: &str) -> (r: String)
    ensures
        r@ == joined(state_dir_path(home@), "projects.json"@),
{
    join_path(state_dir(home).as_str(), "projects.json")
}

/// The file that holds the alias of the active bookmark.
pub fn active_file(home: &str) -> (r: String)
    ensures
        r@ == joined(state_dir_path(home@), "active"@),
{
    join_path(state_dir(home).as_str(), "active")
}

/// The directory that holds the profiles.
pub open spec fn profiles_dir_path(home: Seq<char>) -> Seq<char> {
    joined(state_dir_path(home), "profiles"@)
}

/// The directory that holds the profiles.
pub fn profiles_dir(home: &str) -> (r: String)
    ensures
        r@ == profiles_dir_path(home@),
{
    join_path(state_dir(home).as_str(), "profiles")
}

/// The file that holds the file buffer.
pub fn buffer_file(home: &str) -> (r: String)
    ensures
        r@ == joined(state_dir_path(home@), "buffer.json"@),
{
    join_path(state_dir(home).as_str(), "buffer.json")
}

/// The file of the profile called `name`.
pub open spec fn profile_file_path(home: Seq<char>, name: Seq<char>) -> Seq<char> {
    joined(profiles_dir_path(home), name + ".json"@)
}

/// The file of the profile called `name`: `<name>.json` in the profiles directory.
pub fn profile_path(home: &str, name: &str) -> (r: String)
    ensures
        r@ == profile_file_path(home@, name@),
{
    let mut file = String::from_str(name);
    file.append(".json");
    join_path(profiles_dir(home).as_str(), file.as_str())
}

// ---------------------------------------------------------------------------
// Walking up from a directory.
// ---------------------------------------------------------------------------

/// What `Path::parent` gives for a path, as text.
pub uninterp spec fn path_parent(p: Seq<char>) -> Option<Seq<char>>;

/// The path `d/name`: the directory `d` and one more component below it.
pub open spec fn one_below(d: Seq<char>, name: Seq<char>) -> Seq<char> {
    d + seq!['/'] + name
}

/// `name` is a plain last component below `d`: `name` is a non-empty name
/// with no `/` that is not `.` or `..`, and `d` is non-empty and ends neither
/// in `/` nor in a `.` component (which `Path` would normalise away).
pub open spec fn plain_last_component(d: Seq<char>, name: Seq<char>) -> bool {
    &&& d.len() > 0
    &&& d.last() != '/'
    &&& d != seq!['.']
    &&& !(d.len() >= 2 && d.last() == '.' && d[d.len() - 2] == '/')
    &&& name.len() > 0
    &&& forall|k: int| 0 <= k < name.len() ==> #[trigger] name[k] != '/'
    &&& name != seq!['.']
    &&& name != seq!['.', '.']
}

/// Calls `std::path::Path::parent`. Its result is a function of the path
/// alone, named `path_parent`. As its documentation says, the parent is the
/// path without its final component: for `d/name` with a plain last
/// component `name`, it is `d`. What it gives for other paths (a root, the
/// empty path, paths ending in `/` or `.`) is not stated.
#[verifier::external_body]
fn parent_of(p: &str) -> (r: Option<String>)
    ensures
        match r {
            Some(q) => path_parent(p@) == Some(q@),
            None => path_parent(p@) is None,
        },
        forall|d: Seq<char>, name: Seq<char>|
            #[trigger] one_below(d, name) == p@ && plain_last_component(d, name) ==> (r is Some
                && r->0@ == d),
{
    match std::path::Path::new(p).parent() {
        Some(q) => Some(q.to_string_lossy().into_owned()),
        None => None,
    }
}

/// One step of the search for a file in a directory and its ancestors.
pub enum WalkStep {
    /// The file is in this directory.
    Found(String),
    /// Look in this directory next.
    Up(String),
    /// There is no directory left to look in.
    NotFound,
}

/// Decides the next step of the search from the directory `current` and
/// whether the file was found in it: stop there if it was; else go on to the
/// parent directory, unless there is none (or it is `current` itself).
pub fn walk_up_for_file(current: &str, file_present: bool) -> (r: WalkStep)
    ensures
        match r {
            WalkStep::Found(d) => file_present && d@ == current@,
            WalkStep::Up(p) => !file_present && path_parent(current@) == Some(p@) && p@ != current@,
            WalkStep::NotFound => !file_present && (path_parent(current@) is None || path_parent(
                current@,
            ) == Some(current@)),
        },
        forall|d: Seq<char>, name: Seq<char>|
            #[trigger] one_below(d, name) == current@ && plain_last_component(d, name)
                && !file_present ==> (r matches WalkStep::Up(q) && q@ == d),
{
    if file_present {
        return WalkStep::Found(String::from_str(current));
    }
    match parent_of(current) {
        Some(p) => {
            let cur = String::from_str(current);
            if p == cur {
                WalkStep::NotFound
            } else {
                WalkStep::Up(p)
            }
        },
        None => WalkStep::NotFound,
    }
}

} // verus!
