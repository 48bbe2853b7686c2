//! The rules of file discovery: which directories are never entered, which
//! extensions are wanted, and how paths are reported: relative to the
//! project, with forward slashes.

use vstd::prelude::*;
use vstd::string::*;
use crate::text::{
    contains_string, find_last, head_before, leading_run, lowercase, pieces, replace_char, replace_in,
    same_text, split, split_chars, string_of, string_of_range, tail_after, to_chars, to_lower,
    trailing_run, trim, trim_chars,
};

verus! {

/// The directory names that are skipped whatever the caller configures.
pub open spec fn default_ignores() -> Seq<Seq<char>> {
    seq![
        ".git"@,
        "node_modules"@,
        "vendor"@,
        "dist"@,
        "build"@,
        "out"@,
        "target"@,
        "__pycache__"@,
        ".venv"@,
        "venv"@,
        "site-packages"@,
        ".m2"@,
        ".gradle"@,
        ".idea"@,
        ".vscode"@,
        "coverage"@,
        "_build"@,
        ".next"@,
        ".nuxt"@,
        ".svelte-kit"@,
    ]
}

/// A directory of this name is not entered: it is one of the default
/// ignores, or one of the caller's.
pub open spec fn is_ignored(name: Seq<char>, extra: Seq<Seq<char>>) -> bool {
    default_ignores().contains(name) || extra.contains(name)
}

/// Entry `i` of the default ignores.
fn default_ignore_at(i: usize) -> (r: &'static str)
    requires
        i < 20,
    ensures
        r@ == default_ignores()[i as int],
{
    if i == 0 {
        ".git"
    } else if i == 1 {
        "node_modules"
    } else if i == 2 {
        "vendor"
    } else if i == 3 {
        "dist"
    } else if i == 4 {
        "build"
    } else if i == 5 {
        "out"
    } else if i == 6 {
        "target"
    } else if i == 7 {
        "__pycache__"
    } else if i == 8 {
        ".venv"
    } else if i == 9 {
        "venv"
    } else if i == 10 {
        "site-packages"
    } else if i == 11 {
        ".m2"
    } else if i == 12 {
        ".gradle"
    } else if i == 13 {
        ".idea"
    } else if i == 14 {
        ".vscode"
    } else if i == 15 {
        "coverage"
    } else if i == 16 {
        "_build"
    } else if i == 17 {
        ".next"
    } else if i == 18 {
        ".nuxt"
    } else {
        ".svelte-kit"
    }
}

/// Whether a directory of this name is skipped: `extra` holds the caller's
/// own ignores.
pub fn is_ignored_dir(name: &str, extra: &Vec<String>) -> (r: bool)
    ensures
        r == is_ignored(name@, extra.deep_view()),
{
    let mut i: usize = 0;
    while i < 20
        invariant
            i <= 20,
            default_ignores().len() == 20,
            forall|k: int| 0 <= k < i ==> default_ignores()[k] != name@,
        decreases 20 - i,
    {
        if same_text(default_ignore_at(i), name) {
            assert(default_ignores()[i as int] == name@);
            return true;
        }
        i += 1;
    }
    contains_string(extra, name)
}

/// The pieces that are not blank, each trimmed.
pub open spec fn trimmed_nonblank(parts: Seq<Seq<char>>) -> Seq<Seq<char>>
    decreases parts.len(),
{
    if parts.len() == 0 {
        parts
    } else if trim(parts.last()).len() > 0 {
        trimmed_nonblank(parts.drop_last()).push(trim(parts.last()))
    } else {
        trimmed_nonblank(parts.drop_last())
    }
}

/// The directory names of a comma-separated list: each trimmed, the blank
/// ones left out.
pub fn parse_ignore_dirs(list: &str) -> (r: Vec<String>)
    ensures
        r.deep_view() == trimmed_nonblank(split(list@, ',')),
{
    let chars = to_chars(list);
    let parts = split_chars(&chars, ',');
    let ghost all = pieces(parts@);
    let mut out: Vec<String> = Vec::new();
    let mut i: usize = 0;
    assert(all.take(0) =~= Seq::<Seq<char>>::empty());
    while i < parts.len()
        invariant
            i <= parts.len(),
            all == pieces(parts@),
            out.deep_view() == trimmed_nonblank(all.take(i as int)),
        decreases parts.len() - i,
    {
        let t = trim_chars(&parts[i]);
        let ghost before = out.deep_view();
        proof {
            assert(all.take(i + 1).drop_last() =~= all.take(i as int));
            assert(all.take(i + 1).last() == parts@[i as int]@);
        }
        if t.len() > 0 {
            out.push(string_of(&t));
            assert(out.deep_view() =~= before.push(t@));
        }
        i += 1;
    }
    assert(all.take(parts.len() as int) =~= all);
    out
}

/// A text without its leading dots.
pub open spec fn without_leading_dots(s: Seq<char>) -> Seq<char> {
    s.skip(leading_run(s, '.') as int)
}

/// The extensions of a comma-separated list: each trimmed and without
/// leading dots.
pub open spec fn extensions_of(list: Seq<char>) -> Seq<Seq<char>> {
    split(list, ',').map_values(|p: Seq<char>| without_leading_dots(trim(p)))
}

/// The number of leading characters of `v` that equal `c`.
fn count_leading(v: &Vec<char>, c: char) -> (n: usize)
    ensures
        n == leading_run(v@, c),
        n <= v.len(),
{
    let mut i: usize = 0;
    assert(v@.skip(0) =~= v@);
    while i < v.len() && v[i] == c
        invariant
            i <= v.len(),
            leading_run(v@, c) == i + leading_run(v@.skip(i as int), c),
        decreases v.len() - i,
    {
        proof {
            assert(v@.skip(i as int).drop_first() =~= v@.skip(i + 1));
        }
        i += 1;
    }
    i
}

/// The number of trailing characters of `v[from..]` that equal `c`.
fn count_trailing(v: &Vec<char>, from: usize, c: char) -> (n: usize)
    requires
        from <= v.len(),
    ensures
        n == trailing_run(v@.skip(from as int), c),
        n <= v.len() - from,
{
    let ghost rest = v@.skip(from as int);
    let mut j: usize = v.len();
    assert(rest.take(v.len() - from) =~= rest);
    while j > from && v[j - 1] == c
        invariant
            from <= j <= v.len(),
            rest == v@.skip(from as int),
            trailing_run(rest, c) == (v.len() - j) + trailing_run(rest.take(j - from), c),
        decreases j,
    {
        proof {
            assert(rest.take(j - from).last() == v@[j - 1]);
            assert(rest.take(j - from).drop_last() =~= rest.take(j - 1 - from));
        }
        j -= 1;
    }
    proof {
        if j > from {
            assert(rest.take(j - from).last() == v@[j - 1]);
        }
    }
    v.len() - j
}

/// The wanted extensions of a comma-separated list.
pub fn parse_extensions(list: &str) -> (r: Vec<String>)
    ensures
        r.deep_view() == extensions_of(list@),
{
    let chars = to_chars(list);
    let parts = split_chars(&chars, ',');
    let ghost all = pieces(parts@);
    let mut out: Vec<String> = Vec::new();
    let mut i: usize = 0;
    while i < parts.len()
        invariant
            i <= parts.len(),
            all == pieces(parts@),
            all == split(list@, ','),
            out.len() == i,
            forall|k: int|
                0 <= k < i ==> out.deep_view()[k] == without_leading_dots(trim(#[trigger] all[k])),
        decreases parts.len() - i,
    {
        let t = trim_chars(&parts[i]);
        let dots = count_leading(&t, '.');
        let ghost before = out.deep_view();
        out.push(string_of_range(&t, dots, t.len()));
        proof {
            assert(all[i as int] == parts@[i as int]@);
            assert(t@.subrange(dots as int, t.len() as int) =~= t@.skip(dots as int));
            assert(out.deep_view() =~= before.push(without_leading_dots(trim(all[i as int]))));
        }
        i += 1;
    }
    assert(out.deep_view() =~= extensions_of(list@));
    out
}

/// Whether a file of this extension is wanted: every file is where no
/// extensions are named.
pub fn extension_allowed(ext: &str, allowed: &Vec<String>) -> (r: bool)
    ensures
        r == (allowed.len() == 0 || allowed.deep_view().contains(ext@)),
{
    allowed.len() == 0 || contains_string(allowed, ext)
}

/// A text without any leading `./`.
pub open spec fn without_dot_slash(s: Seq<char>) -> Seq<char>
    decreases s.len(),
{
    if s.len() >= 2 && s[0] == '.' && s[1] == '/' {
        without_dot_slash(s.skip(2))
    } else {
        s
    }
}

/// A text without its leading and trailing slashes.
pub open spec fn without_slashes(s: Seq<char>) -> Seq<char> {
    let rest = s.skip(leading_run(s, '/') as int);
    rest.take(rest.len() - trailing_run(rest, '/'))
}

/// The scope as a path below the project: trimmed, without leading `./`
/// and without slashes at either end.
pub open spec fn normalized_scope(scope: Seq<char>) -> Seq<char> {
    without_slashes(without_dot_slash(trim(scope)))
}

/// The scope as a path below the project.
pub fn normalize_scope(scope: &str) -> (r: String)
    ensures
        r@ == normalized_scope(scope@),
{
    let chars = to_chars(scope);
    let t = trim_chars(&chars);
    let mut start: usize = 0;
    assert(t@.skip(0) =~= t@);
    while t.len() - start >= 2 && t[start] == '.' && t[start + 1] == '/'
        invariant
            start <= t.len(),
            without_dot_slash(t@) == without_dot_slash(t@.skip(start as int)),
        decreases t.len() - start,
    {
        proof {
            assert(t@.skip(start as int).skip(2) =~= t@.skip(start + 2));
        }
        start += 2;
    }
    let mut rest: Vec<char> = Vec::new();
    let mut k: usize = start;
    while k < t.len()
        invariant
            start <= k <= t.len(),
            rest@ == t@.subrange(start as int, k as int),
        decreases t.len() - k,
    {
        rest.push(t[k]);
        k += 1;
        assert(rest@ =~= t@.subrange(start as int, k as int));
    }
    assert(rest@ =~= t@.skip(start as int));
    assert(rest@ == without_dot_slash(trim(scope@)));
    let lead = count_leading(&rest, '/');
    let trail = count_trailing(&rest, lead, '/');
    let r = string_of_range(&rest, lead, rest.len() - trail);
    proof {
        let tail = rest@.skip(lead as int);
        assert(tail.take(tail.len() - trail) =~= rest@.subrange(
            lead as int,
            rest.len() - trail,
        ));
    }
    r
}

/// `rel` below `base`: a slash between them, unless `base` is empty or
/// ends with one.
pub open spec fn joined_path(base: Seq<char>, rel: Seq<char>) -> Seq<char> {
    if base.len() == 0 {
        rel
    } else if base.last() == '/' {
        base + rel
    } else {
        base + seq!['/'] + rel
    }
}

/// The directory that a run scans: the project, or the scope below it where
/// one is given and is not empty.
pub open spec fn scan_root_of(project: Seq<char>, scope: Option<Seq<char>>) -> Seq<char> {
    match scope {
        Some(s) => if normalized_scope(s).len() == 0 {
            project
        } else {
            joined_path(project, normalized_scope(s))
        },
        None => project,
    }
}

/// The directory that a run scans.
pub fn scan_root(project: &str, scope: Option<&str>) -> (r: String)
    ensures
        r@ == scan_root_of(
            project@,
            match scope {
                Some(s) => Some(s@),
                None => None,
            },
        ),
{
    match scope {
        None => project.to_owned(),
        Some(s) => {
            let normalized = normalize_scope(s);
            let n = to_chars(normalized.as_str());
            if n.len() == 0 {
                project.to_owned()
            } else {
                let base = to_chars(project);
                let mut out = project.to_owned();
                if base.len() > 0 && base[base.len() - 1] != '/' {
                    crate::text::push_char(&mut out, '/');
                }
                out.append(normalized.as_str());
                proof {
                    assert(project@.push('/') =~= project@ + seq!['/']);
                    if base.len() == 0 {
                        assert(out@ =~= normalized@);
                    }
                }
                out
            }
        },
    }
}

/// `path` as seen from `root`: what follows `root` and the slashes after
/// it, where `root` is a leading run of whole components of `path`; else
/// `path` as it is.
pub open spec fn relative_to(path: Seq<char>, root: Seq<char>) -> Seq<char> {
    if root.is_prefix_of(path) && (root.len() == 0 || root.last() == '/' || path.len()
        == root.len() || path[root.len() as int] == '/') {
        let rest = path.skip(root.len() as int);
        rest.skip(leading_run(rest, '/') as int)
    } else {
        path
    }
}

/// The path that is reported for a file: relative to the project root, with
/// forward slashes.
pub open spec fn reported_path(path: Seq<char>, root: Seq<char>) -> Seq<char> {
    replace_char(relative_to(path, root), '\\', '/')
}

/// The path that is reported for a file.
pub fn relative_path(path: &str, root: &str) -> (r: String)
    ensures
        r@ == reported_path(path@, root@),
{
    let p = to_chars(path);
    let q = to_chars(root);
    let under = crate::text::starts_with(&p, &q) && (q.len() == 0 || q[q.len() - 1] == '/'
        || p.len() == q.len() || p[q.len()] == '/');
    if under {
        let mut rest: Vec<char> = Vec::new();
        let mut k: usize = q.len();
        while k < p.len()
            invariant
                q.len() <= k <= p.len(),
                rest@ == p@.subrange(q.len() as int, k as int),
            decreases p.len() - k,
        {
            rest.push(p[k]);
            k += 1;
            assert(rest@ =~= p@.subrange(q.len() as int, k as int));
        }
        assert(rest@ =~= p@.skip(q.len() as int));
        let lead = count_leading(&rest, '/');
        let rel = string_of_range(&rest, lead, rest.len());
        assert(rest@.subrange(lead as int, rest.len() as int) =~= rest@.skip(lead as int));
        replace_in(rel.as_str(), '\\', '/')
    } else {
        replace_in(path, '\\', '/')
    }
}

/// The file name of a path: what follows its last slash.
pub open spec fn file_name_of(path: Seq<char>) -> Seq<char> {
    tail_after(path, '/')
}

/// The directory of a path: what comes before its last slash.
pub open spec fn directory_of(path: Seq<char>) -> Seq<char> {
    head_before(path, '/')
}

/// The extension by which a file's grammar is chosen: what follows the last
/// dot of its file name, in lower case, where something comes before that
/// dot; else nothing.
pub open spec fn extension_of(path: Seq<char>) -> Seq<char> {
    let name = file_name_of(path);
    if head_before(name, '.').len() == 0 {
        Seq::empty()
    } else {
        lowercase(tail_after(name, '.'))
    }
}

/// What follows the last `c` in `v`, and what comes before it.
fn split_last(v: &Vec<char>, c: char) -> (r: (Vec<char>, Vec<char>))
    ensures
        r.0@ == head_before(v@, c),
        r.1@ == tail_after(v@, c),
{
    let at = find_last(v, c);
    let (head_end, tail_start): (usize, usize) = match at {
        Some(i) => (i, i + 1),
        None => (0, 0),
    };
    let mut head: Vec<char> = Vec::new();
    let mut k: usize = 0;
    while k < head_end
        invariant
            k <= head_end <= v.len(),
            head@ == v@.take(k as int),
        decreases head_end - k,
    {
        head.push(v[k]);
        k += 1;
        assert(head@ =~= v@.take(k as int));
    }
    let mut tail: Vec<char> = Vec::new();
    let mut j: usize = tail_start;
    while j < v.len()
        invariant
            tail_start <= j <= v.len(),
            tail@ == v@.subrange(tail_start as int, j as int),
        decreases v.len() - j,
    {
        tail.push(v[j]);
        j += 1;
        assert(tail@ =~= v@.subrange(tail_start as int, j as int));
    }
    assert(tail@ =~= v@.skip(tail_start as int));
    assert(head@ =~= head_before(v@, c));
    (head, tail)
}

/// The directory and the file name of a path.
pub fn split_path(path: &str) -> (r: (String, String))
    ensures
        r.0@ == directory_of(path@),
        r.1@ == file_name_of(path@),
{
    let chars = to_chars(path);
    let (head, tail) = split_last(&chars, '/');
    (string_of(&head), string_of(&tail))
}

/// The lower-case extension of a path.
pub fn file_extension(path: &str) -> (r: String)
    ensures
        r@ == extension_of(path@),
{
    let chars = to_chars(path);
    let (_dir, name) = split_last(&chars, '/');
    let (stem, ext) = split_last(&name, '.');
    if stem.len() == 0 {
        String::new()
    } else {
        let raw = string_of(&ext);
        to_lower(raw.as_str())
    }
}

} // verus!
