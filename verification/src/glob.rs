//! Path and glob helpers of the filesystem tools.
use vstd::prelude::*;
use crate::text;
use crate::order;
use crate::search::{occurs_at, occurs_at_exec};

verus! {

/// `s` split at every `'/'` (the separators dropped).
pub open spec fn split_slash(s: Seq<char>) -> Seq<Seq<char>>
    decreases s.len(),
{
    if s.len() == 0 {
        seq![Seq::<char>::empty()]
    } else {
        let prev = split_slash(s.drop_last());
        if s.last() == '/' {
            prev.push(Seq::<char>::empty())
        } else {
            prev.update(prev.len() - 1, prev.last().push(s.last()))
        }
    }
}

/// Whether a path component names a hidden entry: it starts with `'.'` and
/// is neither `.` nor `..`.
pub open spec fn hidden_name(c: Seq<char>) -> bool {
    c.len() > 0 && c[0] == '.' && c != "."@ && c != ".."@
}

/// Whether some component of the path names a hidden entry.
pub open spec fn in_dot_path(path: Seq<char>) -> bool {
    exists|i: int| 0 <= i < split_slash(path).len() && hidden_name(#[trigger] split_slash(path)[i])
}

proof fn lemma_split_slash_nonempty(s: Seq<char>)
    ensures
        split_slash(s).len() >= 1,
    decreases s.len(),
{
    if s.len() > 0 {
        lemma_split_slash_nonempty(s.drop_last());
    }
}

/// Whether a path is a dotfile or lies inside a dot directory (a component
/// such as `.git` or `.env`; `.` and `..` do not count).
pub fn is_dotfile_or_in_dot_directory(path: &str) -> (b: bool)
    ensures
        b == in_dot_path(path@),
{
    let cs = text::chars_of(path);
    let mut pieces: Vec<Vec<char>> = Vec::new();
    let mut cur: Vec<char> = Vec::new();
    let mut i: usize = 0;
    assert(cs@.subrange(0, 0) =~= Seq::<char>::empty());
    while i < cs.len()
        invariant
            0 <= i <= cs@.len(),
            split_slash(cs@.subrange(0, i as int)).len() >= 1,
            pieces@.map_values(|p: Vec<char>| p@) == split_slash(cs@.subrange(0, i as int)).drop_last(),
            cur@ == split_slash(cs@.subrange(0, i as int)).last(),
        decreases cs@.len() - i,
    {
        let ghost p = split_slash(cs@.subrange(0, i as int));
        proof {
            assert(cs@.subrange(0, i + 1).drop_last() =~= cs@.subrange(0, i as int));
            assert(cs@.subrange(0, i + 1).last() == cs@[i as int]);
        }
        if cs[i] == '/' {
            let ghost before = pieces@;
            let done = cur;
            pieces.push(done);
            cur = Vec::new();
            proof {
                let p2 = split_slash(cs@.subrange(0, i + 1));
                assert(p2 == p.push(Seq::<char>::empty()));
                assert(pieces@.map_values(|q: Vec<char>| q@) =~= before.map_values(|q: Vec<char>| q@).push(p.last()));
                assert(p.drop_last().push(p.last()) =~= p);
                assert(pieces@.map_values(|q: Vec<char>| q@) =~= p);
                assert(p2.drop_last() =~= p);
            }
        } else {
            cur.push(cs[i]);
            proof {
                let p2 = split_slash(cs@.subrange(0, i + 1));
                assert(p2.drop_last() =~= p.drop_last());
            }
        }
        i = i + 1;
    }
    assert(cs@.subrange(0, cs@.len() as int) =~= cs@);
    let ghost all = split_slash(path@);
    let ghost before = pieces@;
    let ghost cur_v = cur@;
    pieces.push(cur);
    assert(pieces@.map_values(|q: Vec<char>| q@) =~= before.map_values(|q: Vec<char>| q@).push(cur_v));
    assert(all.drop_last().push(all.last()) =~= all);
    assert(pieces@.map_values(|q: Vec<char>| q@) =~= all);
    let mut k: usize = 0;
    while k < pieces.len()
        invariant
            0 <= k <= pieces@.len(),
            pieces@.map_values(|p: Vec<char>| p@) == all,
            all == split_slash(path@),
            forall|j: int| 0 <= j < k ==> !hidden_name(#[trigger] all[j]),
        decreases pieces@.len() - k,
    {
        let c = &pieces[k];
        assert(all[k as int] == c@);
        let is_dot = c.len() == 1 && c[0] == '.';
        let is_dotdot = c.len() == 2 && c[0] == '.' && c[1] == '.';
        proof {
            reveal_strlit(".");
            reveal_strlit("..");
            if c@ == "."@ {
                assert(c@.len() == 1);
            }
            if c@ == ".."@ {
                assert(c@.len() == 2);
            }
            if is_dot {
                assert(c@ =~= "."@);
            }
            if is_dotdot {
                assert(c@ =~= ".."@);
            }
        }
        if c.len() > 0 && c[0] == '.' && !is_dot && !is_dotdot {
            assert(hidden_name(all[k as int]));
            return true;
        }
        k = k + 1;
    }
    false
}


// ---------------------------------------------------------------------------
// Expanding glob patterns into files
// ---------------------------------------------------------------------------

/// Most files a set of patterns may expand to.
pub const MAX_EXPANDED_FILES: usize = 1000;

/// The first position `>= k` where `pat` occurs in `s`.
pub open spec fn first_from(s: Seq<char>, pat: Seq<char>, k: int) -> Option<int>
    decreases s.len() - k,
{
    if k < 0 || k >= s.len() {
        None
    } else if occurs_at(s, pat, k) {
        Some(k)
    } else {
        first_from(s, pat, k + 1)
    }
}

/// The last position of `c` in `s`.
pub open spec fn last_of(s: Seq<char>, c: char) -> Option<int>
    decreases s.len(),
{
    if s.len() == 0 {
        None
    } else if s.last() == c {
        Some(s.len() - 1)
    } else {
        last_of(s.drop_last(), c)
    }
}

/// `s` without any trailing `c`.
pub open spec fn trim_end_char(s: Seq<char>, c: char) -> Seq<char>
    decreases s.len(),
{
    if s.len() > 0 && s.last() == c {
        trim_end_char(s.drop_last(), c)
    } else {
        s
    }
}

/// The directory that an absolute pattern starts its walk from: what
/// precedes its first `**` (trailing separators dropped), or else the
/// directory part before its first `*`.
pub open spec fn glob_base(p: Seq<char>) -> Option<Seq<char>> {
    if p.len() == 0 || p[0] != '/' {
        None
    } else {
        match first_from(p, seq!['*', '*'], 0) {
            Some(g) => {
                let b = trim_end_char(trim_end_char(p.subrange(0, g), '/'), '\\');
                if b.len() > 0 { Some(b) } else { None }
            },
            None => match first_from(p, seq!['*'], 0) {
                Some(g) => {
                    let base = p.subrange(0, g);
                    let sep = match last_of(base, '/') {
                        Some(i) => Some(i),
                        None => last_of(base, '\\'),
                    };
                    match sep {
                        Some(l) => if l > 0 { Some(base.subrange(0, l)) } else { None },
                        None => None,
                    }
                },
                None => None,
            },
        }
    }
}

/// The first base that one of the patterns from `i` on gives, else `.`.
pub open spec fn first_base(ps: Seq<Seq<char>>, i: int) -> Seq<char>
    decreases ps.len() - i,
{
    if i < 0 || i >= ps.len() {
        seq!['.']
    } else {
        match glob_base(ps[i]) {
            Some(b) => b,
            None => first_base(ps, i + 1),
        }
    }
}

/// The directory the expansion walks: the given one, else the base of the
/// first absolute pattern that has one, else the current directory.
pub open spec fn search_dir_spec(ps: Seq<Seq<char>>, base_dir: Option<Seq<char>>) -> Seq<char> {
    match base_dir {
        Some(d) => d,
        None => first_base(ps, 0),
    }
}

fn first_from_exec(s: &Vec<char>, pat: &Vec<char>) -> (r: Option<usize>)
    ensures
        r matches Some(k) ==> k < s@.len(),
        r matches Some(k) ==> first_from(s@, pat@, 0) == Some(k as int),
        r is None ==> first_from(s@, pat@, 0) is None,
{
    let mut k: usize = 0;
    while k < s.len()
        invariant
            0 <= k <= s@.len(),
            first_from(s@, pat@, 0) == first_from(s@, pat@, k as int),
        decreases s@.len() - k,
    {
        if occurs_at_exec(s, pat, k) {
            return Some(k);
        }
        k = k + 1;
    }
    None
}

fn last_of_exec(s: &Vec<char>, to: usize, c: char) -> (r: Option<usize>)
    requires
        to <= s@.len(),
    ensures
        r matches Some(k) ==> k < to,
        r matches Some(k) ==> last_of(s@.subrange(0, to as int), c) == Some(k as int),
        r is None ==> last_of(s@.subrange(0, to as int), c) is None,
{
    let mut n: usize = to;
    while n > 0
        invariant
            0 <= n <= to <= s@.len(),
            last_of(s@.subrange(0, to as int), c) == last_of(s@.subrange(0, n as int), c),
        decreases n,
    {
        assert(s@.subrange(0, n as int).drop_last() =~= s@.subrange(0, n - 1));
        if s[n - 1] == c {
            return Some(n - 1);
        }
        n = n - 1;
    }
    None
}

fn trim_end_exec(s: &Vec<char>, to: usize, c: char) -> (n: usize)
    requires
        to <= s@.len(),
    ensures
        n <= to,
        trim_end_char(s@.subrange(0, to as int), c) == s@.subrange(0, n as int),
{
    let mut n: usize = to;
    while n > 0 && s[n - 1] == c
        invariant
            0 <= n <= to <= s@.len(),
            trim_end_char(s@.subrange(0, to as int), c) == trim_end_char(s@.subrange(0, n as int), c),
        decreases n,
    {
        assert(s@.subrange(0, n as int).drop_last() =~= s@.subrange(0, n - 1));
        n = n - 1;
    }
    n
}

fn trim_end_vec(s: &Vec<char>, c: char) -> (r: Vec<char>)
    ensures
        r@ == trim_end_char(s@, c),
{
    let n = trim_end_exec(s, s.len(), c);
    assert(s@.subrange(0, s@.len() as int) =~= s@);
    let mut r: Vec<char> = Vec::new();
    let mut i: usize = 0;
    while i < n
        invariant
            n <= s@.len(),
            0 <= i <= n,
            r@ == s@.subrange(0, i as int),
        decreases n - i,
    {
        r.push(s[i]);
        assert(r@ =~= s@.subrange(0, i + 1));
        i = i + 1;
    }
    r
}

/// The walk base of one absolute pattern, if it has one.
fn glob_base_exec(pattern: &str) -> (r: Option<String>)
    ensures
        r matches Some(b) ==> glob_base(pattern@) == Some(b@),
        r is None ==> glob_base(pattern@) is None,
{
    let p = text::chars_of(pattern);
    if p.len() == 0 || p[0] != '/' {
        return None;
    }
    let two = vec!['*', '*'];
    let one = vec!['*'];
    assert(two@ =~= seq!['*', '*']);
    assert(one@ =~= seq!['*']);
    match first_from_exec(&p, &two) {
        Some(g) => {
            let n1 = trim_end_exec(&p, g, '/');
            let n2 = trim_end_exec(&p, n1, '\\');
            assert(p@.subrange(0, n1 as int) =~= p@.subrange(0, g as int).subrange(0, n1 as int));
            if n2 > 0 {
                Some(text::string_of_range(&p, 0, n2))
            } else {
                None
            }
        },
        None => match first_from_exec(&p, &one) {
            Some(g) => {
                assert(p@.subrange(0, g as int).len() == g);
                let sep = match last_of_exec(&p, g, '/') {
                    Some(i) => Some(i),
                    None => last_of_exec(&p, g, '\\'),
                };
                match sep {
                    Some(l) => {
                        if l > 0 {
                            proof {
                                let base = p@.subrange(0, g as int);
                                assert(base.subrange(0, l as int) =~= p@.subrange(0, l as int));
                            }
                            Some(text::string_of_range(&p, 0, l))
                        } else {
                            None
                        }
                    },
                    None => None,
                }
            },
            None => None,
        },
    }
}

fn first_base_exec(patterns: &Vec<String>) -> (d: String)
    ensures
        d@ == first_base(text::views(patterns@), 0),
{
    let ghost ps = text::views(patterns@);
    let mut i: usize = 0;
    while i < patterns.len()
        invariant
            0 <= i <= patterns@.len(),
            ps == text::views(patterns@),
            first_base(ps, 0) == first_base(ps, i as int),
        decreases patterns@.len() - i,
    {
        assert(ps[i as int] == patterns@[i as int]@);
        match glob_base_exec(patterns[i].as_str()) {
            Some(b) => {
                assert(first_base(ps, i as int) == b@);
                return b;
            },
            None => {
                assert(first_base(ps, i as int) == first_base(ps, i + 1));
            },
        }
        i = i + 1;
    }
    proof {
        reveal_strlit(".");
    }
    assert(first_base(ps, i as int) =~= "."@);
    text::owned(".")
}

/// The directory the expansion of `patterns` walks: `base_dir` where it is
/// given, else the fixed part of the first absolute pattern that has one
/// (before its first `**`, or the directory before its first `*`), else `.`.
pub fn glob_search_dir(patterns: &Vec<String>, base_dir: Option<&str>) -> (d: String)
    ensures
        d@ == search_dir_spec(text::views(patterns@), match base_dir {
            Some(b) => Some(b@),
            None => None,
        }),
{
    match base_dir {
        Some(b) => text::owned(b),
        None => first_base_exec(patterns),
    }
}

/// A file met on the walk: its path, and that path relative to the walked
/// directory (the path itself where it does not lie below it).
pub struct WalkedFile {
    pub path: String,
    pub relative: String,
}

/// The walked files that the expansion considers, by path: all of them when
/// the walked directory is itself hidden, else those whose relative path
/// holds no hidden component.
pub open spec fn walked_kept(dir: Seq<char>, files: Seq<WalkedFile>) -> Seq<Seq<char>>
    decreases files.len(),
{
    if files.len() == 0 {
        Seq::empty()
    } else {
        let rest = walked_kept(dir, files.drop_last());
        let f = files.last();
        if in_dot_path(dir) || !in_dot_path(f.relative@) {
            rest.push(f.path@)
        } else {
            rest
        }
    }
}

/// Keeps the walked files that the expansion looks at (see `walked_kept`).
pub fn keep_walked_files(search_dir: &str, files: &Vec<WalkedFile>) -> (r: Vec<String>)
    ensures
        text::views(r@) == walked_kept(search_dir@, files@),
{
    let dir_hidden = is_dotfile_or_in_dot_directory(search_dir);
    let mut r: Vec<String> = Vec::new();
    let mut i: usize = 0;
    while i < files.len()
        invariant
            0 <= i <= files@.len(),
            dir_hidden == in_dot_path(search_dir@),
            text::views(r@) == walked_kept(search_dir@, files@.subrange(0, i as int)),
        decreases files@.len() - i,
    {
        let f = &files[i];
        assert(files@.subrange(0, i + 1).drop_last() =~= files@.subrange(0, i as int));
        if dir_hidden || !is_dotfile_or_in_dot_directory(f.relative.as_str()) {
            r.push(f.path.clone());
            assert(text::views(r@) =~= text::views(r@.drop_last()).push(f.path@));
        }
        i = i + 1;
    }
    assert(files@.subrange(0, files@.len() as int) =~= files@);
    r
}

#[verifier::external_type_specification]
#[verifier::external_body]
pub struct ExGlobPattern(glob::Pattern);

/// What `glob::Pattern::new` reports for a pattern it refuses (the error's
/// text); `None` where it accepts the pattern.
pub uninterp spec fn glob_compile_error(pattern: Seq<char>) -> Option<Seq<char>>;

/// Whether the compiled `pattern` matches `path` (`glob::Pattern::matches`).
pub uninterp spec fn glob_match(pattern: Seq<char>, path: Seq<char>) -> bool;

/// A glob pattern with the text it was compiled from.
pub struct CompiledGlob {
    text: String,
    pattern: glob::Pattern,
}

impl CompiledGlob {
    /// The text the pattern was compiled from.
    pub closed spec fn source(&self) -> Seq<char> {
        self.text@
    }
}

/// Compiles a shell-style pattern with `glob::Pattern::new`: the pattern,
/// or the text of the error the crate reports for it.
#[verifier::external_body]
fn compile_glob(pattern: &str) -> (r: Result<CompiledGlob, String>)
    ensures
        match r {
            Ok(c) => glob_compile_error(pattern@) is None && c.source() == pattern@,
            Err(e) => glob_compile_error(pattern@) == Some(e@),
        },
{
    match glob::Pattern::new(pattern) {
        Ok(p) => Ok(CompiledGlob { text: pattern.to_string(), pattern: p }),
        Err(e) => Err(e.to_string()),
    }
}

/// Whether the pattern matches `path` (`glob::Pattern::matches`); the
/// pattern is the one compiled from `c.source()`.
#[verifier::external_body]
fn glob_matches(c: &CompiledGlob, path: &str) -> (b: bool)
    ensures
        b == glob_match(c.source(), path@),
{
    c.pattern.matches(path)
}

/// How a pattern without wildcards stands on disk.
#[derive(Debug, Clone, Copy, PartialEq, Eq, Structural)]
pub enum PathKind {
    /// Nothing there, or neither a file nor a directory.
    Missing,
    File,
    Dir,
}

/// Whether `p` holds a wildcard (`*`, `?` or `[`).
pub open spec fn has_meta(p: Seq<char>) -> bool {
    p.contains('*') || p.contains('?') || p.contains('[')
}

/// `f` without a leading `./`.
pub open spec fn strip_dot_slash(f: Seq<char>) -> Seq<char> {
    if f.len() >= 2 && f[0] == '.' && f[1] == '/' {
        f.skip(2)
    } else {
        f
    }
}

/// Whether `s` starts with `pre`.
pub open spec fn starts(s: Seq<char>, pre: Seq<char>) -> bool {
    occurs_at(s, pre, 0)
}

/// A directory pattern as compared: trailing `/` then `\` dropped.
pub open spec fn dir_norm(p: Seq<char>) -> Seq<char> {
    trim_end_char(trim_end_char(p, '/'), '\\')
}

/// Whether the walked file `f` counts as lying in the directory `dir`.
pub open spec fn in_dir(dir: Seq<char>, f: Seq<char>) -> bool {
    starts(strip_dot_slash(f), dir.push('/')) || (starts(strip_dot_slash(f), dir) && !in_dot_path(f))
}

/// Whether the pattern `p` (standing on disk as `kind`) yields `s`, of the
/// walked `files`.
pub open spec fn hit(p: Seq<char>, kind: PathKind, files: Seq<Seq<char>>, s: Seq<char>) -> bool {
    if has_meta(p) {
        files.contains(s) && glob_match(p, strip_dot_slash(s))
    } else {
        match kind {
            PathKind::File => s == p && !in_dot_path(p),
            PathKind::Dir => files.contains(s) && in_dir(dir_norm(p), s),
            PathKind::Missing => false,
        }
    }
}

/// Whether some pattern yields `s`.
pub open spec fn any_hit(ps: Seq<Seq<char>>, ks: Seq<PathKind>, files: Seq<Seq<char>>, s: Seq<char>) -> bool {
    exists|i: int| 0 <= i < ps.len() && hit(ps[i], ks[i], files, s)
}

/// The first wildcard pattern from `i` on that the glob crate refuses.
pub open spec fn first_bad(ps: Seq<Seq<char>>, i: int) -> Option<int>
    decreases ps.len() - i,
{
    if i < 0 || i >= ps.len() {
        None
    } else if has_meta(ps[i]) && glob_compile_error(ps[i]) is Some {
        Some(i)
    } else {
        first_bad(ps, i + 1)
    }
}

/// The error for a refused pattern.
pub open spec fn invalid_glob_message(p: Seq<char>, e: Seq<char>) -> Seq<char> {
    "Invalid glob pattern '"@ + p + "': "@ + e
}

/// The error for an expansion past the limit.
pub open spec fn too_many_message(n: nat) -> Seq<char> {
    "Too many files expanded from glob patterns: "@ + text::dec(n)
        + " files (max allowed: 1000). Consider using more specific patterns to reduce the file count."@
}

/// Whether `w` lists exactly the strings `s` with `any_hit`, sorted.
pub open spec fn sorted_hits(w: Seq<Seq<char>>, ps: Seq<Seq<char>>, ks: Seq<PathKind>, files: Seq<Seq<char>>) -> bool {
    order::strictly_sorted(w) && forall|s: Seq<char>| w.contains(s) <==> any_hit(ps, ks, files, s)
}

/// A pattern holding any of `*`, `?` or `[` is a wildcard pattern: every
/// walked file whose path (without a leading `./`) it matches comes out of
/// the expansion, whatever the pattern stands for on disk.
pub proof fn lemma_wildcard_pattern_yields_its_matches(
    w: Seq<Seq<char>>,
    ps: Seq<Seq<char>>,
    ks: Seq<PathKind>,
    files: Seq<Seq<char>>,
    i: int,
    s: Seq<char>,
)
    requires
        sorted_hits(w, ps, ks, files),
        0 <= i < ps.len(),
        exists|j: int| 0 <= j < ps[i].len() && (ps[i][j] == '*' || ps[i][j] == '?' || ps[i][j] == '['),
        files.contains(s),
        glob_match(ps[i], strip_dot_slash(s)),
    ensures
        w.contains(s),
{
    let j = choose|j: int| 0 <= j < ps[i].len() && (ps[i][j] == '*' || ps[i][j] == '?' || ps[i][j] == '[');
    if ps[i][j] == '*' {
        assert(ps[i].contains('*'));
    } else if ps[i][j] == '?' {
        assert(ps[i].contains('?'));
    } else {
        assert(ps[i].contains('['));
    }
    assert(hit(ps[i], ks[i], files, s));
    assert(any_hit(ps, ks, files, s));
}

/// The expansion yields nothing out of thin air: each file in it is a walked
/// file, or a plain pattern naming a file.
pub proof fn lemma_expansion_comes_from_files_or_patterns(
    w: Seq<Seq<char>>,
    ps: Seq<Seq<char>>,
    ks: Seq<PathKind>,
    files: Seq<Seq<char>>,
    s: Seq<char>,
)
    requires
        sorted_hits(w, ps, ks, files),
        w.contains(s),
    ensures
        files.contains(s) || exists|i: int| 0 <= i < ps.len() && ps[i] == s && ks[i] == PathKind::File,
{
    assert(any_hit(ps, ks, files, s));
    let i = choose|i: int| 0 <= i < ps.len() && hit(ps[i], ks[i], files, s);
    if !files.contains(s) {
        assert(ps[i] == s && ks[i] == PathKind::File);
    }
}

fn strip_dot_slash_exec(f: &Vec<char>) -> (r: Vec<char>)
    ensures
        r@ == strip_dot_slash(f@),
{
    if f.len() >= 2 && f[0] == '.' && f[1] == '/' {
        let mut r: Vec<char> = Vec::new();
        let mut i: usize = 2;
        while i < f.len()
            invariant
                2 <= i <= f@.len(),
                r@ == f@.subrange(2, i as int),
            decreases f@.len() - i,
        {
            r.push(f[i]);
            assert(r@ =~= f@.subrange(2, i + 1));
            i = i + 1;
        }
        assert(f@.skip(2) =~= f@.subrange(2, f@.len() as int));
        r
    } else {
        f.clone()
    }
}

fn has_meta_exec(p: &Vec<char>) -> (b: bool)
    ensures
        b == has_meta(p@),
{
    let mut i: usize = 0;
    while i < p.len()
        invariant
            0 <= i <= p@.len(),
            forall|j: int| 0 <= j < i ==> p@[j] != '*' && p@[j] != '?' && p@[j] != '[',
        decreases p@.len() - i,
    {
        if p[i] == '*' || p[i] == '?' || p[i] == '[' {
            assert(p@[i as int] == p[i as int]);
            return true;
        }
        i = i + 1;
    }
    false
}

/// Pushing `fv` when `P(fv)` holds keeps the set of kept strings equal to
/// what the start held plus the members of the scanned prefix with `P`.
proof fn lemma_scan_step(
    before: Seq<Seq<char>>,
    after: Seq<Seq<char>>,
    start: Seq<Seq<char>>,
    pre: Seq<Seq<char>>,
    fv: Seq<char>,
    pred: spec_fn(Seq<char>) -> bool,
)
    requires
        forall|s: Seq<char>| #[trigger] before.contains(s) <==> (start.contains(s) || (pre.contains(s) && pred(s))),
        after == (if pred(fv) { before.push(fv) } else { before }),
    ensures
        forall|s: Seq<char>| #[trigger] after.contains(s) <==> (start.contains(s) || (pre.push(fv).contains(s) && pred(s))),
{
    let pre1 = pre.push(fv);
    assert forall|s: Seq<char>| #[trigger] after.contains(s) <==> (start.contains(s) || (pre1.contains(s) && pred(s))) by {
        if pre1.contains(s) && s != fv {
            let w = choose|w: int| 0 <= w < pre1.len() && pre1[w] == s;
            assert(pre[w] == s);
        }
        if pre.contains(s) {
            let w = choose|w: int| 0 <= w < pre.len() && pre[w] == s;
            assert(pre1[w] == s);
        }
        if s == fv {
            assert(pre1[pre.len() as int] == s);
        }
        if pred(fv) {
            if before.contains(s) {
                let w = choose|w: int| 0 <= w < before.len() && before[w] == s;
                assert(after[w] == s);
            }
            if after.contains(s) && s != fv {
                let w = choose|w: int| 0 <= w < after.len() && after[w] == s;
                assert(before[w] == s);
            }
            if s == fv {
                assert(after[before.len() as int] == s);
            }
        }
    }
}

/// The files of `all_files` that one pattern yields, pushed onto `out`.
fn pattern_hits(
    pattern: &str,
    kind: PathKind,
    all_files: &Vec<String>,
    out: &mut Vec<String>,
) -> (r: Result<(), String>)
    ensures
        match r {
            Ok(()) => !(has_meta(pattern@) && glob_compile_error(pattern@) is Some)
                && forall|s: Seq<char>| text::views(final(out)@).contains(s) <==> (text::views(old(out)@).contains(s)
                    || hit(pattern@, kind, text::views(all_files@), s)),
            Err(e) => has_meta(pattern@) && glob_compile_error(pattern@) is Some
                && e@ == invalid_glob_message(pattern@, glob_compile_error(pattern@)->0),
        },
{
    let p = text::chars_of(pattern);
    let ghost files = text::views(all_files@);
    let ghost start = text::views(out@);
    if has_meta_exec(&p) {
        let compiled = match compile_glob(pattern) {
            Ok(c) => c,
            Err(e) => {
                let mut m = text::owned("Invalid glob pattern '");
                text::push_str(&mut m, pattern);
                text::push_str(&mut m, "': ");
                text::push_str(&mut m, e.as_str());
                return Err(m);
            },
        };
        let mut i: usize = 0;
        while i < all_files.len()
            invariant
                0 <= i <= all_files@.len(),
                files == text::views(all_files@),
                compiled.source() == pattern@,
                has_meta(pattern@),
                forall|s: Seq<char>| text::views(out@).contains(s) <==> (start.contains(s) || (text::views(
                    all_files@.subrange(0, i as int),
                ).contains(s) && glob_match(pattern@, strip_dot_slash(s)))),
            decreases all_files@.len() - i,
        {
            let f = text::chars_of(all_files[i].as_str());
            let norm = strip_dot_slash_exec(&f);
            let norm_s = text::string_of(&norm);
            let ghost before = text::views(out@);
            let ghost fv = all_files@[i as int]@;
            let ok = glob_matches(&compiled, norm_s.as_str());
            if ok {
                out.push(all_files[i].clone());
            }
            proof {
                let pre = text::views(all_files@.subrange(0, i as int));
                let pre1 = text::views(all_files@.subrange(0, i + 1));
                assert(pre1 =~= pre.push(fv));
                assert(f@ == fv);
                assert(ok == glob_match(pattern@, strip_dot_slash(fv)));
                let pred = |t: Seq<char>| glob_match(pattern@, strip_dot_slash(t));
                if ok {
                    assert(text::views(out@) =~= before.push(fv));
                }
                lemma_scan_step(before, text::views(out@), start, pre, fv, pred);
            }
            i = i + 1;
        }
        assert(all_files@.subrange(0, all_files@.len() as int) =~= all_files@);
        Ok(())
    } else {
        match kind {
            PathKind::Missing => Ok(()),
            PathKind::File => {
                if !is_dotfile_or_in_dot_directory(pattern) {
                    let ghost before = text::views(out@);
                    out.push(text::owned(pattern));
                    proof {
                        assert(text::views(out@) =~= before.push(pattern@));
                        assert forall|s: Seq<char>| text::views(out@).contains(s) <==> (start.contains(s) || s
                            == pattern@) by {
                            if start.contains(s) {
                                let w = choose|w: int| 0 <= w < start.len() && start[w] == s;
                                assert(text::views(out@)[w] == s);
                            }
                            if text::views(out@).contains(s) && s != pattern@ {
                                let w = choose|w: int| 0 <= w < text::views(out@).len() && text::views(out@)[w] == s;
                                assert(start[w] == s);
                            }
                            if s == pattern@ {
                                assert(text::views(out@)[start.len() as int] == s);
                            }
                        }
                    }
                }
                Ok(())
            },
            PathKind::Dir => {
                let d1 = trim_end_vec(&p, '/');
                let dir = trim_end_vec(&d1, '\\');
                let mut dir_slash = dir.clone();
                dir_slash.push('/');
                assert(dir_slash@ =~= dir@.push('/'));
                let mut i: usize = 0;
                while i < all_files.len()
                    invariant
                        0 <= i <= all_files@.len(),
                        files == text::views(all_files@),
                        dir@ == dir_norm(pattern@),
                        dir_slash@ == dir@.push('/'),
                        !has_meta(pattern@),
                        kind == PathKind::Dir,
                        forall|s: Seq<char>| text::views(out@).contains(s) <==> (start.contains(s) || (text::views(
                            all_files@.subrange(0, i as int),
                        ).contains(s) && in_dir(dir@, s))),
                    decreases all_files@.len() - i,
                {
                    let f = text::chars_of(all_files[i].as_str());
                    let norm = strip_dot_slash_exec(&f);
                    let ghost before = text::views(out@);
                    let ghost fv = all_files@[i as int]@;
                    let ok = occurs_at_exec(&norm, &dir_slash, 0) || (occurs_at_exec(&norm, &dir, 0)
                        && !is_dotfile_or_in_dot_directory(all_files[i].as_str()));
                    if ok {
                        out.push(all_files[i].clone());
                    }
                    proof {
                        let pre = text::views(all_files@.subrange(0, i as int));
                        let pre1 = text::views(all_files@.subrange(0, i + 1));
                        assert(pre1 =~= pre.push(fv));
                        assert(f@ == fv);
                        assert(ok == in_dir(dir@, fv));
                        let pred = |t: Seq<char>| in_dir(dir@, t);
                        if ok {
                            assert(text::views(out@) =~= before.push(fv));
                        }
                        lemma_scan_step(before, text::views(out@), start, pre, fv, pred);
                    }
                    i = i + 1;
                }
                assert(all_files@.subrange(0, all_files@.len() as int) =~= all_files@);
                Ok(())
            },
        }
    }
}

/// Expands the patterns over the walked files. A pattern with a wildcard
/// yields the files it matches (compared without a leading `./`); a plain
/// path yields itself where it is a file outside dot directories, and the
/// files below it where it is a directory. The result is sorted, each file
/// once. It fails on the first wildcard pattern the glob crate refuses, and
/// where more than `MAX_EXPANDED_FILES` files come out.
pub fn expand_patterns(patterns: &Vec<String>, kinds: &Vec<PathKind>, all_files: &Vec<String>) -> (r: Result<
    Vec<String>,
    String,
>)
    requires
        kinds@.len() == patterns@.len(),
    ensures
        ({
            let ps = text::views(patterns@);
            let files = text::views(all_files@);
            match first_bad(ps, 0) {
                Some(i) => r == Err::<Vec<String>, String>(r->Err_0) && r->Err_0@ == invalid_glob_message(
                    ps[i],
                    glob_compile_error(ps[i])->0,
                ),
                None => match r {
                    Ok(v) => sorted_hits(text::views(v@), ps, kinds@, files) && v@.len() <= MAX_EXPANDED_FILES,
                    Err(e) => exists|w: Seq<Seq<char>>|
                        sorted_hits(w, ps, kinds@, files) && w.len() > MAX_EXPANDED_FILES && e@ == too_many_message(
                            w.len(),
                        ),
                },
            }
        }),
{
    let ghost ps = text::views(patterns@);
    let ghost files = text::views(all_files@);
    let mut found: Vec<String> = Vec::new();
    let mut k: usize = 0;
    while k < patterns.len()
        invariant
            0 <= k <= patterns@.len(),
            kinds@.len() == patterns@.len(),
            ps == text::views(patterns@),
            files == text::views(all_files@),
            first_bad(ps, 0) == first_bad(ps, k as int),
            forall|s: Seq<char>| text::views(found@).contains(s) <==> exists|i: int|
                0 <= i < k && hit(ps[i], kinds@[i], files, s),
        decreases patterns@.len() - k,
    {
        assert(ps[k as int] == patterns@[k as int]@);
        let ghost before = text::views(found@);
        match pattern_hits(patterns[k].as_str(), kinds[k], all_files, &mut found) {
            Ok(()) => {},
            Err(e) => {
                return Err(e);
            },
        }
        proof {
            assert forall|s: Seq<char>| text::views(found@).contains(s) <==> exists|i: int|
                0 <= i < k + 1 && hit(ps[i], kinds@[i], files, s) by {
                if text::views(found@).contains(s) && !before.contains(s) {
                    assert(hit(ps[k as int], kinds@[k as int], files, s));
                }
                if exists|i: int| 0 <= i < k + 1 && hit(ps[i], kinds@[i], files, s) {
                    let i = choose|i: int| 0 <= i < k + 1 && hit(ps[i], kinds@[i], files, s);
                    if i < k {
                        assert(before.contains(s));
                    }
                }
            }
        }
        k = k + 1;
    }
    let v = order::sorted_unique(&found);
    if v.len() > MAX_EXPANDED_FILES {
        let mut m = text::owned("Too many files expanded from glob patterns: ");
        text::push_dec(&mut m, v.len());
        text::push_str(
            &mut m,
            " files (max allowed: 1000). Consider using more specific patterns to reduce the file count.",
        );
        assert(sorted_hits(text::views(v@), ps, kinds@, files));
        return Err(m);
    }
    Ok(v)
}

} // verus!
