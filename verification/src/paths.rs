//! Paths of the local tools: components, lexical clean-up, resolution
//! against the session directory, and the guard that keeps tools inside it
//! and away from sensitive locations.
use vstd::prelude::*;
use crate::text;
use crate::listing::{split_by, split_by_exec};

verus! {

/// The non-empty pieces other than `.`.
pub open spec fn body_parts(pieces: Seq<Seq<char>>) -> Seq<Seq<char>>
    decreases pieces.len(),
{
    if pieces.len() == 0 {
        Seq::empty()
    } else {
        let rest = body_parts(pieces.drop_last());
        let c = pieces.last();
        if c.len() == 0 || c == seq!['.'] {
            rest
        } else {
            rest.push(c)
        }
    }
}

/// The components of a Unix path (`Path::components`): `/` for the root,
/// a leading `.` kept, other `.` pieces and empty pieces dropped.
pub open spec fn path_comps(p: Seq<char>) -> Seq<Seq<char>> {
    let pieces = split_by(p, '/');
    if p.len() > 0 && p[0] == '/' {
        seq![seq!['/']] + body_parts(pieces)
    } else if pieces[0] == seq!['.'] {
        seq![seq!['.']] + body_parts(pieces)
    } else {
        body_parts(pieces)
    }
}

/// One step of the lexical clean-up: `.` is skipped, `..` drops the last
/// component where there is a parent (else it stays), the root restarts.
pub open spec fn clean_step(out: Seq<Seq<char>>, c: Seq<char>) -> Seq<Seq<char>> {
    if c == seq!['.'] {
        out
    } else if c == seq!['.', '.'] {
        if out.len() > 0 && out != seq![seq!['/']] {
            out.drop_last()
        } else {
            out.push(c)
        }
    } else if c == seq!['/'] {
        seq![seq!['/']]
    } else {
        out.push(c)
    }
}

/// The clean-up folded over the components.
pub open spec fn clean_fold(comps: Seq<Seq<char>>) -> Seq<Seq<char>>
    decreases comps.len(),
{
    if comps.len() == 0 {
        Seq::empty()
    } else {
        clean_step(clean_fold(comps.drop_last()), comps.last())
    }
}

/// The text of a component list: the root, then the others joined by `/`.
pub open spec fn render_comps(comps: Seq<Seq<char>>) -> Seq<char> {
    if comps.len() > 0 && comps[0] == seq!['/'] {
        seq!['/'] + text::join(comps.skip(1), seq!['/'])
    } else {
        text::join(comps, seq!['/'])
    }
}

/// What `lexical_clean` makes of a path: `.` and `..` collapsed without
/// looking at the disk, `.` for nothing left.
pub open spec fn clean_spec(p: Seq<char>) -> Seq<char> {
    let c = clean_fold(path_comps(p));
    if c.len() == 0 {
        seq!['.']
    } else {
        render_comps(c)
    }
}

/// `base` joined with `p` (`Path::join`): an absolute `p` replaces it,
/// else a `/` goes between them where `base` does not end with one.
pub open spec fn join_path(base: Seq<char>, p: Seq<char>) -> Seq<char> {
    if p.len() > 0 && p[0] == '/' {
        p
    } else if base.len() > 0 && base.last() != '/' {
        base + seq!['/'] + p
    } else {
        base + p
    }
}

/// Whether `p` lies under `base` component by component (`Path::starts_with`).
pub open spec fn under(p: Seq<char>, base: Seq<char>) -> bool {
    let a = path_comps(p);
    let b = path_comps(base);
    b.len() <= a.len() && a.subrange(0, b.len() as int) == b
}

fn body_parts_exec(pieces: &Vec<Vec<char>>, from: usize) -> (r: Vec<String>)
    requires
        from <= pieces@.len(),
    ensures
        text::views(r@) == body_parts(pieces@.map_values(|q: Vec<char>| q@).subrange(from as int, pieces@.len() as int)),
{
    let ghost pv = pieces@.map_values(|q: Vec<char>| q@);
    let mut r: Vec<String> = Vec::new();
    let mut i: usize = from;
    assert(pv.subrange(from as int, from as int) =~= Seq::<Seq<char>>::empty());
    while i < pieces.len()
        invariant
            from <= i <= pieces@.len(),
            pv == pieces@.map_values(|q: Vec<char>| q@),
            text::views(r@) == body_parts(pv.subrange(from as int, i as int)),
        decreases pieces@.len() - i,
    {
        let c = &pieces[i];
        assert(pv.subrange(from as int, i + 1).drop_last() =~= pv.subrange(from as int, i as int));
        assert(pv.subrange(from as int, i + 1).last() == c@);
        let is_dot = c.len() == 1 && c[0] == '.';
        proof {
            if c@ == seq!['.'] {
                assert(c@.len() == 1);
            }
            if is_dot {
                assert(c@ =~= seq!['.']);
            }
        }
        if c.len() > 0 && !is_dot {
            let ghost before = r@;
            r.push(text::string_of(c));
            assert(text::views(r@) =~= text::views(before).push(c@));
        }
        i = i + 1;
    }
    r
}

/// The components of a path (see `path_comps`).
pub fn components(p: &str) -> (r: Vec<String>)
    ensures
        text::views(r@) == path_comps(p@),
{
    let cs = text::chars_of(p);
    let pieces = split_by_exec(&cs, '/');
    let ghost pv = pieces@.map_values(|q: Vec<char>| q@);
    proof {
        crate::listing::lemma_split_by_nonempty(cs@, '/');
    }
    assert(pv.subrange(0, pv.len() as int) =~= pv);
    let body = body_parts_exec(&pieces, 0);
    if cs.len() > 0 && cs[0] == '/' {
        let mut r: Vec<String> = Vec::new();
        let root = vec!['/'];
        assert(root@ =~= seq!['/']);
        r.push(text::string_of(&root));
        assert(text::views(r@) =~= seq![seq!['/']]);
        assert(text::views(body@).subrange(0, 0) =~= Seq::<Seq<char>>::empty());
        let mut i: usize = 0;
        while i < body.len()
            invariant
                0 <= i <= body@.len(),
                text::views(r@) == seq![seq!['/']] + text::views(body@).subrange(0, i as int),
            decreases body@.len() - i,
        {
            let ghost before = r@;
            r.push(body[i].clone());
            assert(text::views(r@) =~= text::views(before).push(body@[i as int]@));
            assert(text::views(r@) =~= seq![seq!['/']] + text::views(body@).subrange(0, i + 1));
            i = i + 1;
        }
        assert(text::views(body@).subrange(0, body@.len() as int) =~= text::views(body@));
        r
    } else {
        let first = &pieces[0];
        assert(pv[0] == first@);
        let lead_dot = first.len() == 1 && first[0] == '.';
        proof {
            if first@ == seq!['.'] {
                assert(first@.len() == 1);
            }
            if lead_dot {
                assert(first@ =~= seq!['.']);
            }
        }
        if lead_dot {
            let mut r: Vec<String> = Vec::new();
            let dot = vec!['.'];
            assert(dot@ =~= seq!['.']);
            r.push(text::string_of(&dot));
            assert(text::views(r@) =~= seq![seq!['.']]);
            assert(text::views(body@).subrange(0, 0) =~= Seq::<Seq<char>>::empty());
            let mut i: usize = 0;
            while i < body.len()
                invariant
                    0 <= i <= body@.len(),
                    text::views(r@) == seq![seq!['.']] + text::views(body@).subrange(0, i as int),
                decreases body@.len() - i,
            {
                let ghost before = r@;
                r.push(body[i].clone());
                assert(text::views(r@) =~= text::views(before).push(body@[i as int]@));
                assert(text::views(r@) =~= seq![seq!['.']] + text::views(body@).subrange(0, i + 1));
                i = i + 1;
            }
            assert(text::views(body@).subrange(0, body@.len() as int) =~= text::views(body@));
            r
        } else {
            body
        }
    }
}

fn is_chars(s: &String, c: &Vec<char>) -> (b: bool)
    ensures
        b == (s@ == c@),
{
    let v = text::chars_of(s.as_str());
    text::seq_eq(&v, c)
}

fn join_slash(parts: &Vec<String>, from: usize) -> (r: String)
    requires
        from <= parts@.len(),
    ensures
        r@ == text::join(text::views(parts@).skip(from as int), seq!['/']),
{
    let mut tail: Vec<String> = Vec::new();
    let mut i: usize = from;
    while i < parts.len()
        invariant
            from <= i <= parts@.len(),
            text::views(tail@) == text::views(parts@).subrange(from as int, i as int),
        decreases parts@.len() - i,
    {
        let ghost before = tail@;
        tail.push(parts[i].clone());
        assert(text::views(tail@) =~= text::views(before).push(parts@[i as int]@));
        assert(text::views(tail@) =~= text::views(parts@).subrange(from as int, i + 1));
        i = i + 1;
    }
    assert(text::views(parts@).skip(from as int) =~= text::views(parts@).subrange(from as int, parts@.len() as int));
    let r = text::join_strings(&tail, "/");
    proof {
        reveal_strlit("/");
        assert("/"@ =~= seq!['/']);
    }
    r
}

/// Collapses `.` and `..` lexically, without looking at the disk, so that
/// targets that do not exist yet can be checked against the session root
/// (see `clean_spec`).
pub fn lexical_clean(path: &str) -> (r: String)
    ensures
        r@ == clean_spec(path@),
{
    let comps = components(path);
    let ghost cv = text::views(comps@);
    let dot = vec!['.'];
    let dotdot = vec!['.', '.'];
    let root = vec!['/'];
    assert(dot@ =~= seq!['.'] && dotdot@ =~= seq!['.', '.'] && root@ =~= seq!['/']);
    let mut out: Vec<String> = Vec::new();
    let mut i: usize = 0;
    while i < comps.len()
        invariant
            0 <= i <= comps@.len(),
            cv == text::views(comps@),
            dot@ == seq!['.'],
            dotdot@ == seq!['.', '.'],
            root@ == seq!['/'],
            text::views(out@) == clean_fold(cv.subrange(0, i as int)),
        decreases comps@.len() - i,
    {
        let c = &comps[i];
        let ghost before = text::views(out@);
        assert(cv.subrange(0, i + 1).drop_last() =~= cv.subrange(0, i as int));
        assert(cv.subrange(0, i + 1).last() == c@);
        if is_chars(c, &dot) {
        } else if is_chars(c, &dotdot) {
            let at_root = out.len() == 1 && is_chars(&out[0], &root);
            proof {
                if before == seq![seq!['/']] {
                    assert(text::views(out@)[0] == out@[0]@);
                }
                if at_root {
                    assert(before =~= seq![seq!['/']]);
                }
            }
            if out.len() > 0 && !at_root {
                out.pop();
                assert(text::views(out@) =~= before.drop_last());
            } else {
                out.push(c.clone());
                assert(text::views(out@) =~= before.push(c@));
            }
        } else if is_chars(c, &root) {
            out = Vec::new();
            out.push(c.clone());
            assert(text::views(out@) =~= seq![seq!['/']]);
        } else {
            out.push(c.clone());
            assert(text::views(out@) =~= before.push(c@));
        }
        i = i + 1;
    }
    assert(cv.subrange(0, cv.len() as int) =~= cv);
    if out.len() == 0 {
        return text::string_of(&dot);
    }
    if is_chars(&out[0], &root) {
        assert(text::views(out@)[0] == out@[0]@);
        let mut r = text::string_of(&root);
        let rest = join_slash(&out, 1);
        text::push_str(&mut r, rest.as_str());
        r
    } else {
        assert(text::views(out@)[0] == out@[0]@);
        let r = join_slash(&out, 0);
        assert(text::views(out@).skip(0) =~= text::views(out@));
        r
    }
}

/// `base` joined with `p` (see `join_path`).
pub fn join_paths(base: &str, p: &str) -> (r: String)
    ensures
        r@ == join_path(base@, p@),
{
    let pv = text::chars_of(p);
    if pv.len() > 0 && pv[0] == '/' {
        return text::owned(p);
    }
    let bv = text::chars_of(base);
    let mut r = text::owned(base);
    if bv.len() > 0 && bv[bv.len() - 1] != '/' {
        text::push_str(&mut r, "/");
        proof {
            reveal_strlit("/");
        }
    }
    text::push_str(&mut r, p);
    proof {
        if bv@.len() > 0 && bv@.last() != '/' {
            assert("/"@ =~= seq!['/']);
        }
    }
    r
}

/// Where a tool path points: an absolute path as it is, a relative one
/// under the session directory.
pub fn resolve(cwd: &str, path: &str) -> (r: String)
    ensures
        r@ == join_path(cwd@, path@),
{
    join_paths(cwd, path)
}

/// Whether `p` lies under `base`, component by component.
pub fn path_under(p: &str, base: &str) -> (b: bool)
    ensures
        b == under(p@, base@),
{
    let a = components(p);
    let c = components(base);
    if c.len() > a.len() {
        return false;
    }
    let mut i: usize = 0;
    while i < c.len()
        invariant
            c@.len() <= a@.len(),
            0 <= i <= c@.len(),
            text::views(a@) == path_comps(p@),
            text::views(c@) == path_comps(base@),
            forall|j: int| 0 <= j < i ==> a@[j]@ == c@[j]@,
        decreases c@.len() - i,
    {
        if !text::str_eq(a[i].as_str(), c[i].as_str()) {
            proof {
                assert(text::views(a@).subrange(0, c@.len() as int)[i as int] != text::views(c@)[i as int]);
            }
            return false;
        }
        i = i + 1;
    }
    assert(text::views(a@).subrange(0, c@.len() as int) =~= text::views(c@));
    true
}

/// Locations under the home directory that the tools never touch.
pub open spec fn guarded_dirs() -> Seq<Seq<char>> {
    seq![".ssh"@, ".gnupg"@, ".config/nail-agent"@, ".config/zacp"@, ".aws"@]
}

fn guarded_dirs_exec() -> (v: Vec<&'static str>)
    ensures
        crate::line_hash::str_views(v@) == guarded_dirs(),
{
    let v = vec![".ssh", ".gnupg", ".config/nail-agent", ".config/zacp", ".aws"];
    assert(crate::line_hash::str_views(v@) =~= guarded_dirs());
    v
}

/// The first guarded directory (under `home`, from the `i`-th on) that
/// `probe` lies in.
pub open spec fn first_guard(home: Seq<char>, probe: Seq<char>, i: int) -> Option<Seq<char>>
    decreases guarded_dirs().len() - i,
{
    if i < 0 || i >= guarded_dirs().len() {
        None
    } else if under(probe, join_path(home, guarded_dirs()[i])) {
        Some(join_path(home, guarded_dirs()[i]))
    } else {
        first_guard(home, probe, i + 1)
    }
}

/// What `check_path` decides. The target is the path resolved against the
/// session directory; it is compared by its canonical form where the disk
/// gave one, else by its lexical clean-up, against the canonical session
/// directory (or the directory as given).
pub open spec fn check_path_spec(
    cwd: Seq<char>,
    path: Seq<char>,
    canonical_cwd: Option<Seq<char>>,
    canonical_target: Option<Seq<char>>,
    home: Option<Seq<char>>,
) -> Result<Seq<char>, Seq<char>> {
    if text::trim(path).len() == 0 {
        Err("路径为空"@)
    } else {
        let target = join_path(cwd, path);
        let base = match canonical_cwd {
            Some(c) => c,
            None => cwd,
        };
        let probe = match canonical_target {
            Some(c) => c,
            None => clean_spec(target),
        };
        if !under(probe, base) {
            Err("拒绝："@ + target + " 超出会话目录 "@ + base)
        } else {
            match home {
                Some(h) => match first_guard(h, probe, 0) {
                    Some(d) => Err("拒绝：敏感路径 "@ + d),
                    None => Ok(target),
                },
                None => Ok(target),
            }
        }
    }
}

/// Guarded path resolution: a blank path is refused, as is a target that
/// leaves the session directory or lies in a sensitive location under the
/// home directory (see `check_path_spec`). `canonical_cwd` and
/// `canonical_target` are what the disk says of the session directory and
/// of `resolve(cwd, path)`, where it could say.
pub fn check_path(
    cwd: &str,
    path: &str,
    canonical_cwd: Option<&str>,
    canonical_target: Option<&str>,
    home: Option<&str>,
) -> (r: Result<String, String>)
    ensures
        match r {
            Ok(t) => check_path_spec(cwd@, path@, match canonical_cwd {
                Some(s) => Some(s@),
                None => None,
            }, match canonical_target {
                Some(s) => Some(s@),
                None => None,
            }, match home {
                Some(s) => Some(s@),
                None => None,
            }) == Ok::<Seq<char>, Seq<char>>(t@),
            Err(e) => check_path_spec(cwd@, path@, match canonical_cwd {
                Some(s) => Some(s@),
                None => None,
            }, match canonical_target {
                Some(s) => Some(s@),
                None => None,
            }, match home {
                Some(s) => Some(s@),
                None => None,
            }) == Err::<Seq<char>, Seq<char>>(e@),
        },
{
    let pv = text::chars_of(path);
    let trimmed = text::trim_chars(&pv);
    if trimmed.len() == 0 {
        return Err(text::owned("路径为空"));
    }
    let target = resolve(cwd, path);
    let base: String = match canonical_cwd {
        Some(c) => text::owned(c),
        None => text::owned(cwd),
    };
    let probe: String = match canonical_target {
        Some(c) => text::owned(c),
        None => lexical_clean(target.as_str()),
    };
    if !path_under(probe.as_str(), base.as_str()) {
        let mut m = text::owned("拒绝：");
        text::push_str(&mut m, target.as_str());
        text::push_str(&mut m, " 超出会话目录 ");
        text::push_str(&mut m, base.as_str());
        return Err(m);
    }
    match home {
        None => Ok(target),
        Some(h) => {
            let dirs = guarded_dirs_exec();
            let mut i: usize = 0;
            while i < dirs.len()
                invariant
                    0 <= i <= dirs@.len(),
                    crate::line_hash::str_views(dirs@) == guarded_dirs(),
                    first_guard(h@, probe@, 0) == first_guard(h@, probe@, i as int),
                    home == Some(h),
                    under(probe@, base@),
                    text::trim(path@).len() != 0,
                    target@ == join_path(cwd@, path@),
                    base@ == (match canonical_cwd {
                        Some(c) => c@,
                        None => cwd@,
                    }),
                    probe@ == (match canonical_target {
                        Some(c) => c@,
                        None => clean_spec(join_path(cwd@, path@)),
                    }),
                decreases dirs@.len() - i,
            {
                let d = join_paths(h, dirs[i]);
                assert(guarded_dirs()[i as int] == dirs@[i as int]@);
                assert(i < guarded_dirs().len());
                if path_under(probe.as_str(), d.as_str()) {
                    assert(first_guard(h@, probe@, i as int) == Some(d@));
                    let mut m = text::owned("拒绝：敏感路径 ");
                    text::push_str(&mut m, d.as_str());
                    return Err(m);
                }
                i = i + 1;
            }
            Ok(target)
        },
    }
}

} // verus!
