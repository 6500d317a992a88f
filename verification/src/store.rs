//! Where sessions are persisted, and under which key.
use vstd::prelude::*;
use crate::text;
use crate::paths;

verus! {

/// Whether `char::is_alphanumeric` holds of `c` (Unicode alphabetic or numeric).
pub uninterp spec fn is_alnum(c: char) -> bool;

/// `char::is_alphanumeric`.
#[verifier::external_body]
fn char_is_alphanumeric(c: char) -> (b: bool)
    ensures
        b == is_alnum(c),
{
    c.is_alphanumeric()
}

/// The characters a session id keeps in its key.
pub open spec fn key_char(c: char) -> bool {
    is_alnum(c) || c == '-' || c == '_'
}

/// The characters of `id` that a key keeps, in order.
pub open spec fn safe_id(id: Seq<char>) -> Seq<char>
    decreases id.len(),
{
    if id.len() == 0 {
        Seq::empty()
    } else if key_char(id.last()) {
        safe_id(id.drop_last()).push(id.last())
    } else {
        safe_id(id.drop_last())
    }
}

/// The key a session is stored under: `session:` and its id without any
/// character other than letters, digits, `-` and `_`, so no id reaches
/// outside the flat key space.
pub fn alias(id: &str) -> (k: String)
    ensures
        k@ == "session:"@ + safe_id(id@),
{
    let cs = text::chars_of(id);
    let mut safe: Vec<char> = Vec::new();
    let mut i: usize = 0;
    while i < cs.len()
        invariant
            0 <= i <= cs@.len(),
            cs@ == id@,
            safe@ == safe_id(cs@.subrange(0, i as int)),
        decreases cs@.len() - i,
    {
        let c = cs[i];
        assert(cs@.subrange(0, i + 1).drop_last() =~= cs@.subrange(0, i as int));
        if char_is_alphanumeric(c) || c == '-' || c == '_' {
            safe.push(c);
        }
        i = i + 1;
    }
    assert(cs@.subrange(0, cs@.len() as int) =~= cs@);
    let mut k = text::owned("session:");
    text::push_chars(&mut k, &safe);
    k
}

/// Whether an environment value counts: present and not empty.
pub open spec fn set_value(v: Option<Seq<char>>) -> Option<Seq<char>> {
    match v {
        Some(s) => if s.len() > 0 { Some(s) } else { None },
        None => None,
    }
}

/// Whether a home value counts: present and not blank.
pub open spec fn home_value(v: Option<Seq<char>>) -> Option<Seq<char>> {
    match v {
        Some(s) => if text::trim(s).len() > 0 { Some(s) } else { None },
        None => None,
    }
}

/// The base directory for agent data: `NAIL_DATA_DIR`, then the legacy
/// `ZACP_DATA_DIR`, then `.config/nail-agent` under `HOME` or
/// `USERPROFILE`, else under `/tmp`.
pub open spec fn data_dir_spec(
    nail: Option<Seq<char>>,
    zacp: Option<Seq<char>>,
    home: Option<Seq<char>>,
    profile: Option<Seq<char>>,
) -> Seq<char> {
    match set_value(nail) {
        Some(d) => d,
        None => match set_value(zacp) {
            Some(d) => d,
            None => {
                let base = match home_value(home) {
                    Some(h) => h,
                    None => match home_value(profile) {
                        Some(h) => h,
                        None => "/tmp"@,
                    },
                };
                paths::join_path(paths::join_path(base, ".config"@), "nail-agent"@)
            },
        },
    }
}

fn nonempty(v: Option<&str>) -> (r: Option<&str>)
    ensures
        match r {
            Some(s) => set_value(match v {
                Some(x) => Some(x@),
                None => None,
            }) == Some(s@),
            None => set_value(match v {
                Some(x) => Some(x@),
                None => None,
            }) is None,
        },
{
    match v {
        Some(s) => if text::chars_of(s).len() > 0 {
            Some(s)
        } else {
            None
        },
        None => None,
    }
}

fn nonblank(v: Option<&str>) -> (r: Option<&str>)
    ensures
        match r {
            Some(s) => home_value(match v {
                Some(x) => Some(x@),
                None => None,
            }) == Some(s@),
            None => home_value(match v {
                Some(x) => Some(x@),
                None => None,
            }) is None,
        },
{
    match v {
        Some(s) => {
            let cs = text::chars_of(s);
            if text::trim_chars(&cs).len() > 0 {
                Some(s)
            } else {
                None
            }
        },
        None => None,
    }
}

/// The base directory for agent data (see `data_dir_spec`), from the
/// values of the environment variables named there.
pub fn data_dir(nail: Option<&str>, zacp: Option<&str>, home: Option<&str>, profile: Option<&str>) -> (d: String)
    ensures
        d@ == data_dir_spec(
            match nail {
                Some(x) => Some(x@),
                None => None,
            },
            match zacp {
                Some(x) => Some(x@),
                None => None,
            },
            match home {
                Some(x) => Some(x@),
                None => None,
            },
            match profile {
                Some(x) => Some(x@),
                None => None,
            },
        ),
{
    if let Some(d) = nonempty(nail) {
        return text::owned(d);
    }
    if let Some(d) = nonempty(zacp) {
        return text::owned(d);
    }
    let base: &str = match nonblank(home) {
        Some(h) => h,
        None => match nonblank(profile) {
            Some(h) => h,
            None => "/tmp",
        },
    };
    let a = paths::join_paths(base, ".config");
    paths::join_paths(a.as_str(), "nail-agent")
}

/// The session database under the data directory: `agdb/session.db`.
pub fn store_path(data_dir: &str) -> (p: String)
    ensures
        p@ == paths::join_path(paths::join_path(data_dir@, "agdb"@), "session.db"@),
{
    let a = paths::join_paths(data_dir, "agdb");
    paths::join_paths(a.as_str(), "session.db")
}

} // verus!
