//! Tools of MCP servers as the agent offers them: namespaced names with
//! collision suffixes, calls planned from those names, where the octofs
//! server is found, and the routing of the tool proxy's exposed names.
use vstd::prelude::*;
use crate::text;
use crate::paths;
use crate::listing;
use std::hash::{Hash, Hasher};
use ascon_hash::Digest;

verus! {

// ---------------------------------------------------------------------------
// Namespaced tool names
// ---------------------------------------------------------------------------

/// What std's default hasher (`DefaultHasher::new`, fixed keys) gives for a
/// string hashed with `Hash::hash`.
pub uninterp spec fn default_hash(s: Seq<char>) -> u64;

/// Hashes a string with a fresh `DefaultHasher` and returns `finish()`.
#[verifier::external_body]
fn hash_of(input: &str) -> (h: u64)
    ensures
        h == default_hash(input@),
{
    let mut hasher = std::collections::hash_map::DefaultHasher::new();
    input.hash(&mut hasher);
    hasher.finish()
}

/// The first 8 of 16 lower-case hex digits of the string's default hash.
pub open spec fn hash8_spec(s: Seq<char>) -> Seq<char> {
    text::hex_fixed(default_hash(s) as nat, 16).subrange(0, 8)
}

/// A short, stable suffix for a string: 8 hex digits of its hash.
pub fn hash8(input: &str) -> (r: String)
    ensures
        r@ == hash8_spec(input@),
{
    let h = hash_of(input);
    let mut full = String::new();
    text::push_hex_fixed(&mut full, h, 16);
    proof {
        text::lemma_hex_fixed_len(h as nat, 16);
    }
    let cs = text::chars_of(full.as_str());
    text::string_of_range(&cs, 0, 8)
}

/// A tool as a server offers it.
pub struct ToolName {
    pub server: String,
    pub name: String,
}

/// `{server}__{tool}`.
pub open spec fn base_name(t: ToolName) -> Seq<char> {
    t.server@ + "__"@ + t.name@
}

/// The name tool `i` is offered under: `{server}__{tool}`, with `__` and
/// the hash suffix of that name where an earlier tool had the same one.
pub open spec fn namespaced_spec(ts: Seq<ToolName>, i: int) -> Seq<char> {
    let b = base_name(ts[i]);
    if exists|j: int| 0 <= j < i && base_name(#[trigger] ts[j]) == b {
        b + "__"@ + hash8_spec(b)
    } else {
        b
    }
}

/// The names the tools are offered under (see `namespaced_spec`).
pub fn namespaced_names(tools: &Vec<ToolName>) -> (r: Vec<String>)
    ensures
        r@.len() == tools@.len(),
        forall|i: int| 0 <= i < tools@.len() ==> (#[trigger] r@[i])@ == namespaced_spec(tools@, i),
{
    let mut bases: Vec<String> = Vec::new();
    let mut r: Vec<String> = Vec::new();
    let mut i: usize = 0;
    while i < tools.len()
        invariant
            0 <= i <= tools@.len(),
            bases@.len() == i,
            r@.len() == i,
            forall|k: int| 0 <= k < i ==> (#[trigger] bases@[k])@ == base_name(tools@[k]),
            forall|k: int| 0 <= k < i ==> (#[trigger] r@[k])@ == namespaced_spec(tools@, k),
        decreases tools@.len() - i,
    {
        let t = &tools[i];
        let mut b = t.server.clone();
        text::push_str(&mut b, "__");
        text::push_str(&mut b, t.name.as_str());
        let mut seen = false;
        let mut j: usize = 0;
        while j < i
            invariant
                0 <= j <= i,
                i < tools@.len(),
                bases@.len() == i,
                forall|k: int| 0 <= k < i ==> (#[trigger] bases@[k])@ == base_name(tools@[k]),
                b@ == base_name(tools@[i as int]),
                seen <==> exists|k: int| 0 <= k < j && base_name(#[trigger] tools@[k]) == b@,
            decreases i - j,
        {
            if text::str_eq(bases[j].as_str(), b.as_str()) {
                seen = true;
            }
            proof {
                assert(bases@[j as int]@ == base_name(tools@[j as int]));
                if seen {
                    if base_name(tools@[j as int]) == b@ {
                        assert(exists|k: int| 0 <= k < j + 1 && base_name(#[trigger] tools@[k]) == b@);
                    }
                }
                if exists|k: int| 0 <= k < j + 1 && base_name(#[trigger] tools@[k]) == b@ {
                    let k = choose|k: int| 0 <= k < j + 1 && base_name(#[trigger] tools@[k]) == b@;
                    if k < j {
                        assert(exists|k2: int| 0 <= k2 < j && base_name(#[trigger] tools@[k2]) == b@);
                    }
                }
            }
            j = j + 1;
        }
        let name = if seen {
            let mut n = b.clone();
            text::push_str(&mut n, "__");
            let h = hash8(b.as_str());
            text::push_str(&mut n, h.as_str());
            n
        } else {
            b.clone()
        };
        assert(name@ == namespaced_spec(tools@, i as int));
        bases.push(b);
        r.push(name);
        i = i + 1;
    }
    r
}

/// The position of the first `__` in `s`.
pub open spec fn split_at_spec(s: Seq<char>) -> Option<int> {
    crate::glob::first_from(s, seq!['_', '_'], 0)
}

/// `server__tool` split back at the first `__`.
pub fn split_namespaced(namespaced: &str) -> (r: Option<(String, String)>)
    ensures
        match split_at_spec(namespaced@) {
            Some(k) => r matches Some((a, b)) && a@ == namespaced@.subrange(0, k) && b@ == namespaced@.subrange(
                k + 2,
                namespaced@.len() as int,
            ),
            None => r is None,
        },
{
    let cs = text::chars_of(namespaced);
    let sep = vec!['_', '_'];
    assert(sep@ =~= seq!['_', '_']);
    let mut k: usize = 0;
    while k < cs.len()
        invariant
            0 <= k <= cs@.len(),
            cs@ == namespaced@,
            sep@ == seq!['_', '_'],
            split_at_spec(cs@) == crate::glob::first_from(cs@, sep@, k as int),
        decreases cs@.len() - k,
    {
        if crate::search::occurs_at_exec(&cs, &sep, k) {
            let a = text::string_of_range(&cs, 0, k);
            let b = text::string_of_range(&cs, k + 2, cs.len());
            return Some((a, b));
        }
        k = k + 1;
    }
    None
}

// ---------------------------------------------------------------------------
// Calls of MCP tools
// ---------------------------------------------------------------------------

/// Outcome of one MCP tool call.
pub struct McpToolOutcome {
    pub output: String,
    pub cancelled: bool,
}

/// What an MCP call is run as: the server and its tool, the call's id and
/// the title it is shown under.
pub struct McpPlan {
    pub server: String,
    pub tool: String,
    pub tool_id: String,
    pub title: String,
}

/// What the arguments of an MCP call held, once parsed: the `command`
/// string where they are an object holding one.
pub struct McpArgs {
    pub command: Option<String>,
}

/// How an MCP call starts: an unknown (unsplittable) name and arguments
/// that are not JSON are refused; a `shell` call whose command the screen
/// blocks is refused with the screen's reason; else the call is planned.
pub open spec fn plan_mcp_spec(ns: Seq<char>, arguments: Seq<char>, args: Option<Option<Seq<char>>>) -> Result<
    (Seq<char>, Seq<char>, Seq<char>, Seq<char>),
    Seq<char>,
> {
    match split_at_spec(ns) {
        None => Err("未知工具："@ + ns),
        Some(k) => {
            let server = ns.subrange(0, k);
            let tool = ns.subrange(k + 2, ns.len() as int);
            match args {
                None => Err("工具参数不是合法 JSON（"@ + ns + "）："@ + arguments),
                Some(command) => {
                    let blocked = match command {
                        Some(c) => if tool == "shell"@ { crate::tools::screen_spec(c) } else { None },
                        None => None,
                    };
                    match blocked {
                        Some(reason) => Err(reason),
                        None => Ok((server, tool, "mcp-"@ + ns, server + ": "@ + tool)),
                    }
                },
            }
        },
    }
}

/// Plans an MCP call (see `plan_mcp_spec`); `args` is `None` where the
/// arguments did not parse as JSON.
pub fn plan_mcp_call(namespaced: &str, arguments: &str, args: &Option<McpArgs>) -> (r: Result<McpPlan, String>)
    ensures
        ({
            let a = match args {
                Some(x) => Some(match x.command {
                    Some(c) => Some(c@),
                    None => None,
                }),
                None => None,
            };
            match r {
                Ok(p) => plan_mcp_spec(namespaced@, arguments@, a) == Ok::<
                    (Seq<char>, Seq<char>, Seq<char>, Seq<char>),
                    Seq<char>,
                >((p.server@, p.tool@, p.tool_id@, p.title@)),
                Err(e) => plan_mcp_spec(namespaced@, arguments@, a) == Err::<
                    (Seq<char>, Seq<char>, Seq<char>, Seq<char>),
                    Seq<char>,
                >(e@),
            }
        }),
{
    let (server, tool) = match split_namespaced(namespaced) {
        None => {
            let mut m = text::owned("未知工具：");
            text::push_str(&mut m, namespaced);
            return Err(m);
        },
        Some(p) => p,
    };
    let a = match args {
        None => {
            let mut m = text::owned("工具参数不是合法 JSON（");
            text::push_str(&mut m, namespaced);
            text::push_str(&mut m, "）：");
            text::push_str(&mut m, arguments);
            return Err(m);
        },
        Some(a) => a,
    };
    match &a.command {
        Some(c) => {
            if text::str_eq(tool.as_str(), "shell") {
                match crate::tools::screen_command(c.as_str()) {
                    Some(reason) => {
                        return Err(reason);
                    },
                    None => {},
                }
            }
        },
        None => {},
    }
    let mut tool_id = text::owned("mcp-");
    text::push_str(&mut tool_id, namespaced);
    let mut title = server.clone();
    text::push_str(&mut title, ": ");
    text::push_str(&mut title, tool.as_str());
    Ok(McpPlan { server, tool, tool_id, title })
}

/// What the model is told of a finished MCP call: the output, or the error.
pub fn mcp_call_output(result: Result<String, String>) -> (o: McpToolOutcome)
    ensures
        !o.cancelled,
        match result {
            Ok(out) => o.output@ == out@,
            Err(e) => o.output@ == "MCP 工具调用失败："@ + e@,
        },
{
    match result {
        Ok(out) => McpToolOutcome { output: out, cancelled: false },
        Err(e) => {
            let mut m = text::owned("MCP 工具调用失败：");
            text::push_str(&mut m, e.as_str());
            McpToolOutcome { output: m, cancelled: false }
        },
    }
}

/// What the model is told of a cancelled MCP call.
pub fn mcp_cancelled() -> (o: McpToolOutcome)
    ensures
        o.cancelled,
        o.output@ == "调用被取消。"@,
{
    McpToolOutcome { output: text::owned("调用被取消。"), cancelled: true }
}

/// The report for a call to a server the session is not connected to.
pub fn not_connected_message(server: &str) -> (m: String)
    ensures
        m@ == "MCP server "@ + server@ + " not connected"@,
{
    let mut m = text::owned("MCP server ");
    text::push_str(&mut m, server);
    text::push_str(&mut m, " not connected");
    m
}

// ---------------------------------------------------------------------------
// The embedded octofs server
// ---------------------------------------------------------------------------

/// Name of the embedded filesystem server.
pub const OCTOFS_SERVER: &'static str = "octofs";

/// Whether the embedded filesystem server is started, given the value of
/// `NAIL_OCTOFS`: it is, unless the value is `0`, `off`, `false` or `no`.
pub open spec fn octofs_enabled_spec(var: Option<Seq<char>>) -> bool {
    match var {
        Some(v) => !(v == "0"@ || v == "off"@ || v == "false"@ || v == "no"@),
        None => true,
    }
}

/// Whether the embedded filesystem server is started (see
/// `octofs_enabled_spec`).
pub fn octofs_enabled(var: Option<&str>) -> (b: bool)
    ensures
        b == octofs_enabled_spec(
            match var {
                Some(v) => Some(v@),
                None => None,
            },
        ),
{
    match var {
        Some(v) => !(text::str_eq(v, "0") || text::str_eq(v, "off") || text::str_eq(v, "false") || text::str_eq(
            v,
            "no",
        )),
        None => true,
    }
}

/// Where to look for the octofs binary, in order: `OCTOFS_BIN` where set
/// and not empty, then beside the agent's executable, then in each `PATH`
/// directory; the first that is a file is used.
pub open spec fn octofs_candidates_spec(bin_var: Option<Seq<char>>, exe_dir: Option<Seq<char>>, path_var: Seq<char>) -> Seq<
    Seq<char>,
> {
    let first = match bin_var {
        Some(b) => if b.len() > 0 { seq![b] } else { Seq::empty() },
        None => Seq::empty(),
    };
    let sibling = match exe_dir {
        Some(d) => seq![paths::join_path(d, "octofs"@)],
        None => Seq::empty(),
    };
    first + sibling + listing::split_by(path_var, ':').map_values(|d: Seq<char>| paths::join_path(d, "octofs"@))
}

/// The places to look for the octofs binary (see `octofs_candidates_spec`).
pub fn octofs_candidates(bin_var: Option<&str>, exe_dir: Option<&str>, path_var: &str) -> (r: Vec<String>)
    ensures
        text::views(r@) == octofs_candidates_spec(
            match bin_var {
                Some(b) => Some(b@),
                None => None,
            },
            match exe_dir {
                Some(d) => Some(d@),
                None => None,
            },
            path_var@,
        ),
{
    let mut r: Vec<String> = Vec::new();
    match bin_var {
        Some(b) => {
            if text::chars_of(b).len() > 0 {
                r.push(text::owned(b));
            }
        },
        None => {},
    }
    match exe_dir {
        Some(d) => {
            r.push(paths::join_paths(d, "octofs"));
        },
        None => {},
    }
    let ghost head = text::views(r@);
    let cs = text::chars_of(path_var);
    let dirs = listing::split_by_exec(&cs, ':');
    let ghost dv = dirs@.map_values(|q: Vec<char>| q@);
    let mut i: usize = 0;
    while i < dirs.len()
        invariant
            0 <= i <= dirs@.len(),
            dv == dirs@.map_values(|q: Vec<char>| q@),
            text::views(r@) == head + dv.subrange(0, i as int).map_values(|d: Seq<char>| paths::join_path(d, "octofs"@)),
        decreases dirs@.len() - i,
    {
        let d = text::string_of(&dirs[i]);
        let ghost before = r@;
        r.push(paths::join_paths(d.as_str(), "octofs"));
        proof {
            assert(dv[i as int] == dirs@[i as int]@);
            assert(text::views(r@) =~= text::views(before).push(paths::join_path(dv[i as int], "octofs"@)));
            assert(dv.subrange(0, i + 1).map_values(|d: Seq<char>| paths::join_path(d, "octofs"@)) =~= dv.subrange(
                0,
                i as int,
            ).map_values(|d: Seq<char>| paths::join_path(d, "octofs"@)).push(paths::join_path(dv[i as int], "octofs"@)));
        }
        i = i + 1;
    }
    assert(dv.subrange(0, dv.len() as int) =~= dv);
    proof {
        let first = match bin_var {
            Some(b) => if b@.len() > 0 { seq![b@] } else { Seq::<Seq<char>>::empty() },
            None => Seq::<Seq<char>>::empty(),
        };
        let sibling = match exe_dir {
            Some(d) => seq![paths::join_path(d@, "octofs"@)],
            None => Seq::<Seq<char>>::empty(),
        };
        assert(head =~= first + sibling);
    }
    r
}

/// The arguments octofs is started with for a session directory.
pub fn octofs_args(cwd: &str) -> (r: Vec<String>)
    ensures
        text::views(r@) == seq!["mcp"@, "--path"@, cwd@],
{
    let r = vec![text::owned("mcp"), text::owned("--path"), text::owned(cwd)];
    assert(text::views(r@) =~= seq!["mcp"@, "--path"@, cwd@]);
    r
}

// ---------------------------------------------------------------------------
// The tool proxy's exposed names
// ---------------------------------------------------------------------------

/// The Ascon-Hash256 digest of `bytes`.
pub uninterp spec fn ascon256(bytes: Seq<u8>) -> Seq<u8>;

/// `ascon_hash::AsconHash256::digest`: a 32-byte digest.
#[verifier::external_body]
fn ascon_digest(bytes: &[u8]) -> (d: Vec<u8>)
    ensures
        d@ == ascon256(bytes@),
        d@.len() == 32,
{
    ascon_hash::AsconHash256::digest(bytes).to_vec()
}

/// Two lower-case hex digits for each byte.
pub open spec fn hex_bytes(b: Seq<u8>) -> Seq<char>
    decreases b.len(),
{
    if b.len() == 0 {
        Seq::empty()
    } else {
        hex_bytes(b.drop_last()) + text::hex_fixed(b.last() as nat, 2)
    }
}

/// The suffix of an exposed name: the first 8 bytes of the Ascon-Hash256
/// digest of the string's UTF-8 bytes, in hex.
pub open spec fn short_hash_spec(s: Seq<char>) -> Seq<char> {
    hex_bytes(ascon256(vstd::utf8::encode_utf8(s)).subrange(0, 8))
}

/// 16 hex digits of the Ascon-Hash256 digest of `input`.
pub fn short_hash(input: &str) -> (r: String)
    ensures
        r@ == short_hash_spec(input@),
{
    let d = ascon_digest(input.as_bytes());
    let mut r = String::new();
    let mut i: usize = 0;
    assert(d@.subrange(0, 0) =~= Seq::<u8>::empty());
    while i < 8
        invariant
            0 <= i <= 8,
            d@.len() == 32,
            d@ == ascon256(vstd::utf8::encode_utf8(input@)),
            r@ == hex_bytes(d@.subrange(0, i as int)),
        decreases 8 - i,
    {
        text::push_hex_fixed(&mut r, d[i] as u64, 2);
        assert(d@.subrange(0, i + 1).drop_last() =~= d@.subrange(0, i as int));
        i = i + 1;
    }
    r
}

/// A tool a proxied server exposes: the server's name and position, and
/// the tool's own name.
pub struct ServedTool {
    pub server_name: String,
    pub server_idx: usize,
    pub original: String,
}

/// The name a proxied tool is exposed under: `{tool}-{hash}` with the hash
/// of `{server}-{tool}`.
pub open spec fn exposed_spec(t: ServedTool) -> Seq<char> {
    t.original@ + "-"@ + short_hash_spec(t.server_name@ + "-"@ + t.original@)
}

/// Where each exposed name leads: the server position and the original
/// name, a later tool under the same name replacing an earlier one.
pub open spec fn routes_spec(names: Seq<Seq<char>>, tools: Seq<ServedTool>) -> Map<Seq<char>, (usize, Seq<char>)>
    decreases names.len(),
{
    if names.len() == 0 || tools.len() == 0 {
        Map::empty()
    } else {
        routes_spec(names.drop_last(), tools.drop_last()).insert(
            names.last(),
            (tools.last().server_idx, tools.last().original@),
        )
    }
}

/// The exposed names of the proxied tools and where they lead.
pub struct ToolRouting {
    names: Vec<String>,
    servers: Vec<usize>,
    originals: Vec<String>,
}

impl ToolRouting {
    /// Exposed name to server position and original name.
    pub closed spec fn view(&self) -> Map<Seq<char>, (usize, Seq<char>)> {
        routes_spec(text::views(self.names@), self.tools_view())
    }

    closed spec fn tools_view(&self) -> Seq<ServedTool> {
        Seq::new(
            self.names@.len(),
            |i: int| ServedTool { server_name: self.names@[i], server_idx: self.servers@[i], original: self.originals@[i] },
        )
    }

    /// The three lists stay side by side.
    pub closed spec fn wf(&self) -> bool {
        self.names@.len() == self.servers@.len() && self.names@.len() == self.originals@.len()
    }

    /// No tool exposed yet.
    pub fn new() -> (r: Self)
        ensures
            r.wf(),
            r@ == Map::<Seq<char>, (usize, Seq<char>)>::empty(),
    {
        ToolRouting { names: Vec::new(), servers: Vec::new(), originals: Vec::new() }
    }

    /// Exposes the tools of the proxied servers: each under its exposed name
    /// (see `exposed_spec`), in order; the routing leads each name back.
    pub fn build(tools: &Vec<ServedTool>) -> (r: (Vec<String>, ToolRouting))
        ensures
            r.1.wf(),
            r.0@.len() == tools@.len(),
            forall|i: int| 0 <= i < tools@.len() ==> (#[trigger] r.0@[i])@ == exposed_spec(tools@[i]),
            r.1@ == routes_spec(text::views(r.0@), tools@),
    {
        let mut names: Vec<String> = Vec::new();
        let mut servers: Vec<usize> = Vec::new();
        let mut originals: Vec<String> = Vec::new();
        let mut i: usize = 0;
        while i < tools.len()
            invariant
                0 <= i <= tools@.len(),
                names@.len() == i,
                servers@.len() == i,
                originals@.len() == i,
                forall|k: int| 0 <= k < i ==> (#[trigger] names@[k])@ == exposed_spec(tools@[k]),
                forall|k: int| 0 <= k < i ==> #[trigger] servers@[k] == tools@[k].server_idx,
                forall|k: int| 0 <= k < i ==> (#[trigger] originals@[k])@ == tools@[k].original@,
            decreases tools@.len() - i,
        {
            let t = &tools[i];
            let mut key = t.server_name.clone();
            text::push_str(&mut key, "-");
            text::push_str(&mut key, t.original.as_str());
            let h = short_hash(key.as_str());
            let mut name = t.original.clone();
            text::push_str(&mut name, "-");
            text::push_str(&mut name, h.as_str());
            names.push(name);
            servers.push(t.server_idx);
            originals.push(t.original.clone());
            i = i + 1;
        }
        let r = ToolRouting { names: names.clone(), servers, originals };
        proof {
            lemma_routes_agree(text::views(r.names@), r.tools_view(), text::views(names@), tools@);
        }
        (names, r)
    }

    /// Where an exposed name leads, where it leads to one of the
    /// `server_count` servers.
    pub fn route(&self, exposed: &str, server_count: usize) -> (r: Option<(usize, String)>)
        requires
            self.wf(),
        ensures
            match r {
                Some((i, o)) => self@.contains_key(exposed@) && self@[exposed@] == (i, o@) && i < server_count,
                None => !self@.contains_key(exposed@) || self@[exposed@].0 >= server_count,
            },
    {
        let mut k: usize = self.names.len();
        while k > 0
            invariant
                self.wf(),
                0 <= k <= self.names@.len(),
                forall|j: int| k <= j < self.names@.len() ==> self.names@[j]@ != exposed@,
            decreases k,
        {
            if text::str_eq(self.names[k - 1].as_str(), exposed) {
                proof {
                    self.lemma_route_last(exposed@, (k - 1) as int);
                }
                let i = self.servers[k - 1];
                if i < server_count {
                    return Some((i, self.originals[k - 1].clone()));
                } else {
                    return None;
                }
            }
            k = k - 1;
        }
        proof {
            self.lemma_route_none(exposed@);
        }
        None
    }

    proof fn lemma_route_last(&self, e: Seq<char>, k: int)
        requires
            self.wf(),
            0 <= k < self.names@.len(),
            self.names@[k]@ == e,
            forall|j: int| k < j < self.names@.len() ==> self.names@[j]@ != e,
        ensures
            self@.contains_key(e),
            self@[e] == (self.servers@[k], self.originals@[k]@),
    {
        let names = text::views(self.names@);
        let tools = self.tools_view();
        lemma_routes_last(names, tools, e, k);
    }

    proof fn lemma_route_none(&self, e: Seq<char>)
        requires
            self.wf(),
            forall|j: int| 0 <= j < self.names@.len() ==> self.names@[j]@ != e,
        ensures
            !self@.contains_key(e),
    {
        let names = text::views(self.names@);
        let tools = self.tools_view();
        lemma_routes_absent(names, tools, e);
    }
}

proof fn lemma_routes_last(names: Seq<Seq<char>>, tools: Seq<ServedTool>, e: Seq<char>, k: int)
    requires
        names.len() == tools.len(),
        0 <= k < names.len(),
        names[k] == e,
        forall|j: int| k < j < names.len() ==> names[j] != e,
    ensures
        routes_spec(names, tools).contains_key(e),
        routes_spec(names, tools)[e] == (tools[k].server_idx, tools[k].original@),
    decreases names.len(),
{
    if k < names.len() - 1 {
        lemma_routes_last(names.drop_last(), tools.drop_last(), e, k);
    }
}

proof fn lemma_routes_agree(n1: Seq<Seq<char>>, t1: Seq<ServedTool>, n2: Seq<Seq<char>>, t2: Seq<ServedTool>)
    requires
        n1 == n2,
        n1.len() == t1.len(),
        t1.len() == t2.len(),
        forall|i: int| 0 <= i < t1.len() ==> t1[i].server_idx == t2[i].server_idx && t1[i].original@ == t2[i].original@,
    ensures
        routes_spec(n1, t1) == routes_spec(n2, t2),
    decreases n1.len(),
{
    if n1.len() > 0 {
        lemma_routes_agree(n1.drop_last(), t1.drop_last(), n2.drop_last(), t2.drop_last());
    }
}

proof fn lemma_routes_absent(names: Seq<Seq<char>>, tools: Seq<ServedTool>, e: Seq<char>)
    requires
        names.len() == tools.len(),
        forall|j: int| 0 <= j < names.len() ==> names[j] != e,
    ensures
        !routes_spec(names, tools).contains_key(e),
    decreases names.len(),
{
    if names.len() > 0 {
        lemma_routes_absent(names.drop_last(), tools.drop_last(), e);
    }
}

} // verus!
