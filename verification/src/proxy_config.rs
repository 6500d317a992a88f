//! Tool servers of the proxy as configured: `${VAR}` references expanded,
//! entries of the configuration file turned into connection settings, and
//! the argument handling of the built-in tools.
use vstd::prelude::*;
use crate::text;
use crate::filter::StringMap;

verus! {

// ---------------------------------------------------------------------------
// Connection settings
// ---------------------------------------------------------------------------

/// How to reach a tool server.
pub enum ServerConfig {
    /// A child process speaking MCP on stdin/stdout.
    Stdio { name: String, command: String, args: Vec<String> },
    /// An MCP endpoint over HTTP, with extra request headers.
    Http { name: String, url: String, headers: Vec<(String, String)> },
}

impl ServerConfig {
    /// The server's name.
    pub fn name(&self) -> (n: &str)
        ensures
            n@ == (match self {
                ServerConfig::Stdio { name, .. } => name@,
                ServerConfig::Http { name, .. } => name@,
            }),
    {
        match self {
            ServerConfig::Stdio { name, .. } => name.as_str(),
            ServerConfig::Http { name, .. } => name.as_str(),
        }
    }

    /// A server started as a command.
    pub fn stdio(name: &str, command: &str, args: Vec<String>) -> (c: Self)
        ensures
            c matches ServerConfig::Stdio { name: n, command: m, args: a } && n@ == name@ && m@ == command@ && a
                == args,
    {
        ServerConfig::Stdio { name: text::owned(name), command: text::owned(command), args }
    }

    /// A server at a URL, without extra headers.
    pub fn http(name: &str, url: &str) -> (c: Self)
        ensures
            c matches ServerConfig::Http { name: n, url: u, headers: h } && n@ == name@ && u@ == url@ && h@.len()
                == 0,
    {
        ServerConfig::Http { name: text::owned(name), url: text::owned(url), headers: Vec::new() }
    }

    /// Adds request headers to an HTTP server; other servers are left as
    /// they are.
    pub fn with_headers(self, extra: Vec<(String, String)>) -> (c: Self)
        ensures
            match self {
                ServerConfig::Http { name, url, headers } => c matches ServerConfig::Http {
                    name: n,
                    url: u,
                    headers: h,
                } && n == name && u == url && h@ == headers@ + extra@,
                ServerConfig::Stdio { .. } => c == self,
            },
    {
        match self {
            ServerConfig::Http { name, url, headers } => {
                let mut headers = headers;
                let mut extra = extra;
                headers.append(&mut extra);
                ServerConfig::Http { name, url, headers }
            },
            other => other,
        }
    }
}

// ---------------------------------------------------------------------------
// `${VAR}` references
// ---------------------------------------------------------------------------

/// The end of a reference's name: the first `}` from `i` on, else the length.
pub open spec fn name_end(s: Seq<char>, i: int) -> int
    decreases s.len() - i,
{
    if i < 0 || i >= s.len() {
        s.len() as int
    } else if s[i] == '}' {
        i
    } else {
        name_end(s, i + 1)
    }
}

/// The end of a reference's name lies at or after `i`.
pub proof fn lemma_name_end(s: Seq<char>, i: int)
    requires
        0 <= i,
    ensures
        i <= name_end(s, i) || i > s.len(),
        name_end(s, i) <= s.len(),
    decreases s.len() - i,
{
    if i < s.len() && s[i] != '}' {
        lemma_name_end(s, i + 1);
    }
}

/// `s` from `i` on with each `${NAME}` replaced by the value of `NAME`,
/// or kept as `${NAME}` where it has none; an unclosed reference runs to
/// the end (and is closed when kept).
pub open spec fn expand_from(s: Seq<char>, i: int, env: Map<Seq<char>, Seq<char>>) -> Seq<char>
    decreases s.len() - i,
{
    if i < 0 || i >= s.len() {
        Seq::empty()
    } else if s[i] == '$' && i + 1 < s.len() && s[i + 1] == '{' {
        proof {
            lemma_name_end(s, i + 2);
        }
        let j = name_end(s, i + 2);
        let name = s.subrange(i + 2, j);
        let value = if env.contains_key(name) { env[name] } else { "${"@ + name + "}"@ };
        if j < s.len() {
            value + expand_from(s, j + 1, env)
        } else {
            value
        }
    } else {
        seq![s[i]] + expand_from(s, i + 1, env)
    }
}

/// The names `s` refers to from `i` on, in order.
pub open spec fn names_from(s: Seq<char>, i: int) -> Seq<Seq<char>>
    decreases s.len() - i,
{
    if i < 0 || i >= s.len() {
        Seq::empty()
    } else if s[i] == '$' && i + 1 < s.len() && s[i + 1] == '{' {
        proof {
            lemma_name_end(s, i + 2);
        }
        let j = name_end(s, i + 2);
        if j < s.len() {
            seq![s.subrange(i + 2, j)] + names_from(s, j + 1)
        } else {
            seq![s.subrange(i + 2, j)]
        }
    } else {
        names_from(s, i + 1)
    }
}

fn scan_name(cs: &Vec<char>, from: usize) -> (j: usize)
    requires
        from <= cs@.len(),
    ensures
        j == name_end(cs@, from as int),
        from <= j <= cs@.len(),
{
    let mut j = from;
    proof {
        lemma_name_end(cs@, from as int);
    }
    while j < cs.len() && cs[j] != '}'
        invariant
            from <= j <= cs@.len(),
            name_end(cs@, from as int) == name_end(cs@, j as int),
        decreases cs@.len() - j,
    {
        j = j + 1;
    }
    j
}

/// The names of the `${NAME}` references in `s`, in order (see `names_from`).
pub fn env_var_names(s: &str) -> (r: Vec<String>)
    ensures
        text::views(r@) == names_from(s@, 0),
{
    let cs = text::chars_of(s);
    let mut r: Vec<String> = Vec::new();
    let mut i: usize = 0;
    while i < cs.len()
        invariant
            0 <= i <= cs@.len(),
            cs@ == s@,
            text::views(r@) + names_from(cs@, i as int) == names_from(cs@, 0),
        decreases cs@.len() - i,
    {
        if cs[i] == '$' && i + 1 < cs.len() && cs[i + 1] == '{' {
            let j = scan_name(&cs, i + 2);
            let name = text::string_of_range(&cs, i + 2, j);
            let ghost before = r@;
            r.push(name);
            assert(text::views(r@) =~= text::views(before).push(name@));
            if j < cs.len() {
                assert(text::views(r@) + names_from(cs@, j + 1) =~= text::views(before) + (seq![name@] + names_from(
                    cs@,
                    j + 1,
                )));
                i = j + 1;
            } else {
                assert(names_from(cs@, j as int) =~= Seq::<Seq<char>>::empty());
                assert(text::views(r@) + names_from(cs@, j as int) =~= text::views(before) + seq![name@]);
                i = j;
            }
        } else {
            i = i + 1;
        }
    }
    assert(text::views(r@) + Seq::<Seq<char>>::empty() =~= text::views(r@));
    r
}

/// Replaces each `${NAME}` reference of `s` by its value in `env`, keeping
/// references to names without one (see `expand_from`).
pub fn resolve_env_vars(s: &str, env: &StringMap) -> (r: String)
    requires
        env.wf(),
    ensures
        r@ == expand_from(s@, 0, env@),
{
    let cs = text::chars_of(s);
    let mut r = String::new();
    let mut i: usize = 0;
    while i < cs.len()
        invariant
            0 <= i <= cs@.len(),
            cs@ == s@,
            env.wf(),
            r@ + expand_from(cs@, i as int, env@) == expand_from(cs@, 0, env@),
        decreases cs@.len() - i,
    {
        let ghost before = r@;
        if cs[i] == '$' && i + 1 < cs.len() && cs[i + 1] == '{' {
            let j = scan_name(&cs, i + 2);
            let name = text::string_of_range(&cs, i + 2, j);
            match env.get(name.as_str()) {
                Some(v) => text::push_str(&mut r, v.as_str()),
                None => {
                    text::push_str(&mut r, "${");
                    text::push_str(&mut r, name.as_str());
                    text::push_str(&mut r, "}");
                },
            }
            let ghost value = if env@.contains_key(name@) { env@[name@] } else { "${"@ + name@ + "}"@ };
            assert(r@ == before + value);
            if j < cs.len() {
                assert(r@ + expand_from(cs@, j + 1, env@) =~= before + (value + expand_from(cs@, j + 1, env@)));
                i = j + 1;
            } else {
                assert(expand_from(cs@, j as int, env@) =~= Seq::<char>::empty());
                assert(r@ + expand_from(cs@, j as int, env@) =~= before + value);
                i = j;
            }
        } else {
            text::push_char(&mut r, cs[i]);
            assert(r@ + expand_from(cs@, i + 1, env@) =~= before + (seq![cs@[i as int]] + expand_from(
                cs@,
                i + 1,
                env@,
            )));
            i = i + 1;
        }
    }
    assert(r@ + Seq::<char>::empty() =~= r@);
    r
}

// ---------------------------------------------------------------------------
// Entries of the configuration file
// ---------------------------------------------------------------------------

/// One `[[servers]]` entry of the configuration file.
pub struct ConfigEntry {
    pub name: String,
    pub transport: String,
    pub command: Option<String>,
    pub args: Vec<String>,
    pub url: Option<String>,
    pub headers: Vec<(String, String)>,
}

/// What an entry comes to: a stdio server needs a command, an HTTP server
/// a URL; each string is expanded (see `expand_from`); other transports
/// are refused.
pub open spec fn entry_kind(e: ConfigEntry) -> Result<bool, Seq<char>> {
    if e.transport@ == "stdio"@ {
        if e.command is Some { Ok(true) } else { Err("stdio transport 需要 command 字段"@) }
    } else if e.transport@ == "http"@ {
        if e.url is Some { Ok(false) } else { Err("http transport 需要 url 字段"@) }
    } else {
        Err("不支持的 transport: "@ + e.transport@)
    }
}

fn resolve_all(v: &Vec<String>, env: &StringMap) -> (r: Vec<String>)
    requires
        env.wf(),
    ensures
        r@.len() == v@.len(),
        forall|i: int| 0 <= i < v@.len() ==> (#[trigger] r@[i])@ == expand_from(v@[i]@, 0, env@),
{
    let mut r: Vec<String> = Vec::new();
    let mut i: usize = 0;
    while i < v.len()
        invariant
            0 <= i <= v@.len(),
            env.wf(),
            r@.len() == i,
            forall|k: int| 0 <= k < i ==> (#[trigger] r@[k])@ == expand_from(v@[k]@, 0, env@),
        decreases v@.len() - i,
    {
        r.push(resolve_env_vars(v[i].as_str(), env));
        i = i + 1;
    }
    r
}

/// The connection settings of a configuration entry (see `entry_kind`),
/// with `${NAME}` references expanded from `env`.
pub fn entry_to_config(entry: &ConfigEntry, env: &StringMap) -> (r: Result<ServerConfig, String>)
    requires
        env.wf(),
    ensures
        match entry_kind(*entry) {
            Err(e) => r matches Err(m) && m@ == e,
            Ok(true) => r matches Ok(ServerConfig::Stdio { name, command, args }) && name@ == entry.name@
                && command@ == expand_from(entry.command->0@, 0, env@) && args@.len() == entry.args@.len()
                && forall|i: int| 0 <= i < args@.len() ==> (#[trigger] args@[i])@ == expand_from(entry.args@[i]@, 0, env@),
            Ok(false) => r matches Ok(ServerConfig::Http { name, url, headers }) && name@ == entry.name@
                && url@ == expand_from(entry.url->0@, 0, env@) && headers@.len() == entry.headers@.len()
                && forall|i: int| 0 <= i < headers@.len() ==> (#[trigger] headers@[i]).0@ == expand_from(
                    entry.headers@[i].0@,
                    0,
                    env@,
                ) && headers@[i].1@ == expand_from(entry.headers@[i].1@, 0, env@),
        },
{
    if text::str_eq(entry.transport.as_str(), "stdio") {
        match &entry.command {
            None => Err(text::owned("stdio transport 需要 command 字段")),
            Some(c) => {
                let command = resolve_env_vars(c.as_str(), env);
                let args = resolve_all(&entry.args, env);
                Ok(ServerConfig::Stdio { name: entry.name.clone(), command, args })
            },
        }
    } else if text::str_eq(entry.transport.as_str(), "http") {
        match &entry.url {
            None => Err(text::owned("http transport 需要 url 字段")),
            Some(u) => {
                let url = resolve_env_vars(u.as_str(), env);
                let mut headers: Vec<(String, String)> = Vec::new();
                let mut i: usize = 0;
                while i < entry.headers.len()
                    invariant
                        0 <= i <= entry.headers@.len(),
                        env.wf(),
                        headers@.len() == i,
                        forall|k: int| 0 <= k < i ==> (#[trigger] headers@[k]).0@ == expand_from(
                            entry.headers@[k].0@,
                            0,
                            env@,
                        ) && headers@[k].1@ == expand_from(entry.headers@[k].1@, 0, env@),
                    decreases entry.headers@.len() - i,
                {
                    let h = &entry.headers[i];
                    headers.push((resolve_env_vars(h.0.as_str(), env), resolve_env_vars(h.1.as_str(), env)));
                    i = i + 1;
                }
                Ok(ServerConfig::Http { name: entry.name.clone(), url, headers })
            },
        }
    } else {
        let mut m = text::owned("不支持的 transport: ");
        text::push_str(&mut m, entry.transport.as_str());
        Err(m)
    }
}

// ---------------------------------------------------------------------------
// Built-in tools
// ---------------------------------------------------------------------------

/// How many UUIDs the `uuid` tool makes: the requested count (1 without
/// one) kept between 1 and 10.
pub fn uuid_count(count: Option<i64>) -> (n: usize)
    ensures
        n == (match count {
            Some(c) => if c < 1 { 1 } else if c > 10 { 10 } else { c as int },
            None => 1,
        }),
{
    match count {
        Some(c) => if c < 1 {
            1
        } else if c > 10 {
            10
        } else {
            c as usize
        },
        None => 1,
    }
}

/// How the `time` tool renders the time.
#[derive(Debug, Clone, Copy, PartialEq, Eq, Structural)]
pub enum TimeFormat {
    /// `%Y-%m-%d`
    Date,
    /// `%H:%M:%S`
    Time,
    /// Seconds since the epoch.
    Unix,
    /// RFC 3339.
    Iso,
}

/// The rendering named by the `format` argument; RFC 3339 for anything else.
pub fn time_format(format: Option<&str>) -> (f: TimeFormat)
    ensures
        f == (match format {
            Some(s) => if s@ == "date"@ {
                TimeFormat::Date
            } else if s@ == "time"@ {
                TimeFormat::Time
            } else if s@ == "unix"@ {
                TimeFormat::Unix
            } else {
                TimeFormat::Iso
            },
            None => TimeFormat::Iso,
        }),
{
    match format {
        Some(s) => if text::str_eq(s, "date") {
            TimeFormat::Date
        } else if text::str_eq(s, "time") {
            TimeFormat::Time
        } else if text::str_eq(s, "unix") {
            TimeFormat::Unix
        } else {
            TimeFormat::Iso
        },
        None => TimeFormat::Iso,
    }
}

} // verus!
