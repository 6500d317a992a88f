//! Decisions of the local toolbox (`run` / `read` / `write`): screening of
//! shell commands, the kind a tool is shown as, clipping of displayed text,
//! and path checks.
use vstd::prelude::*;
use crate::search;
use crate::text;
use crate::text_editing;

verus! {

// ---------------------------------------------------------------------------
// Command screening
// ---------------------------------------------------------------------------

/// The destructive shell patterns a command may not contain.
pub open spec fn blocked_patterns() -> Seq<Seq<char>> {
    seq![
        "rm -rf /"@,
        "rm -fr /"@,
        "mkfs"@,
        "dd "@,
        ":(){"@,
        "chmod -R 777 /"@,
        "chmod -R 777 /*"@,
        "chown -R "@,
        "> /dev/sd"@,
        "> /dev/nvme"@,
        "of=/dev/"@,
    ]
}

fn blocked_patterns_exec() -> (v: Vec<&'static str>)
    ensures
        v@.map_values(|s: &str| s@) == blocked_patterns(),
{
    let v = vec![
        "rm -rf /",
        "rm -fr /",
        "mkfs",
        "dd ",
        ":(){",
        "chmod -R 777 /",
        "chmod -R 777 /*",
        "chown -R ",
        "> /dev/sd",
        "> /dev/nvme",
        "of=/dev/",
    ];
    assert(v@.map_values(|s: &str| s@) =~= blocked_patterns());
    v
}

/// The first blocked pattern at or after index `k` that `flat` contains.
pub open spec fn first_blocked(flat: Seq<char>, k: int) -> Option<Seq<char>>
    decreases blocked_patterns().len() - k,
{
    if k < 0 || k >= blocked_patterns().len() {
        None
    } else if search::contains_sub(flat, blocked_patterns()[k]) {
        Some(blocked_patterns()[k])
    } else {
        first_blocked(flat, k + 1)
    }
}

/// What `screen_command` returns: the command with its whitespace runs
/// collapsed to single spaces is matched against the blocked patterns in
/// order; the first one it contains is reported.
pub open spec fn screen_spec(command: Seq<char>) -> Option<Seq<char>> {
    match first_blocked(text::collapse_ws(command), 0) {
        Some(rule) => Some("拒绝：命令命中危险模式 `"@ + rule + "`"@),
        None => None,
    }
}

/// Heuristic screen for destructive shell commands (see `screen_spec`).
pub fn screen_command(command: &str) -> (r: Option<String>)
    ensures
        match screen_spec(command@) {
            Some(m) => r matches Some(x) && x@ == m,
            None => r is None,
        },
{
    let cs = text::chars_of(command);
    let flat_s = text::collapse_ws_exec(&cs);
    let flat = text::chars_of(flat_s.as_str());
    let rules = blocked_patterns_exec();
    let ghost rv = rules@.map_values(|s: &str| s@);
    assert(rv.len() == rules@.len());
    let mut k: usize = 0;
    while k < rules.len()
        invariant
            0 <= k <= rules@.len(),
            rv == rules@.map_values(|s: &str| s@),
            rv == blocked_patterns(),
            flat@ == text::collapse_ws(command@),
            first_blocked(flat@, 0) == first_blocked(flat@, k as int),
        decreases rules@.len() - k,
    {
        let rule = rules[k];
        assert(rv[k as int] == rule@);
        let rc = text::chars_of(rule);
        if search::contains_chars(&flat, &rc) {
            let mut m = text::owned("拒绝：命令命中危险模式 `");
            text::push_str(&mut m, rule);
            text::push_str(&mut m, "`");
            return Some(m);
        }
        k = k + 1;
    }
    None
}

// ---------------------------------------------------------------------------
// Tool kinds
// ---------------------------------------------------------------------------

/// How a tool call is shown to the client.
#[derive(Debug, Clone, Copy, PartialEq, Eq, Structural)]
pub enum ToolKindTag {
    Read,
    Edit,
    Execute,
    Other,
}

/// The last position where `"__"` starts in `s`, or -1.
pub open spec fn last_sep(s: Seq<char>) -> int
    decreases s.len(),
{
    if s.len() < 2 {
        -1
    } else if s[s.len() - 2] == '_' && s[s.len() - 1] == '_' {
        s.len() - 2
    } else {
        last_sep(s.drop_last())
    }
}

/// The part of a (possibly namespaced `server__tool`) name after the last `__`.
pub open spec fn base_name(s: Seq<char>) -> Seq<char> {
    let p = last_sep(s);
    if p < 0 {
        s
    } else {
        s.subrange(p + 2, s.len() as int)
    }
}

/// The kind of a tool, by the base of its name.
pub open spec fn tool_kind_spec(tool: Seq<char>) -> ToolKindTag {
    let b = base_name(tool);
    if b == "read"@ || b == "view"@ {
        ToolKindTag::Read
    } else if b == "write"@ || b == "text_editor"@ || b == "batch_edit"@ {
        ToolKindTag::Edit
    } else if b == "run"@ || b == "shell"@ {
        ToolKindTag::Execute
    } else {
        ToolKindTag::Other
    }
}

/// The kind a tool call is shown as (see `tool_kind_spec`).
pub fn tool_kind(tool: &str) -> (k: ToolKindTag)
    ensures
        k == tool_kind_spec(tool@),
{
    let s = text::chars_of(tool);
    let mut n = s.len();
    assert(s@.subrange(0, n as int) =~= s@);
    // Scan from the end for the last "__".
    while n >= 2 && !(s[n - 2] == '_' && s[n - 1] == '_')
        invariant
            n <= s@.len(),
            last_sep(s@) == last_sep(s@.subrange(0, n as int)),
        decreases n,
    {
        assert(s@.subrange(0, n as int).drop_last() =~= s@.subrange(0, n - 1));
        n = n - 1;
    }
    let base = if n >= 2 {
        assert(last_sep(s@.subrange(0, n as int)) == n - 2);
        text::string_of_range(&s, n, s.len())
    } else {
        text::string_of(&s)
    };
    let b = base.as_str();
    if text::str_eq(b, "read") || text::str_eq(b, "view") {
        ToolKindTag::Read
    } else if text::str_eq(b, "write") || text::str_eq(b, "text_editor") || text::str_eq(b, "batch_edit") {
        ToolKindTag::Edit
    } else if text::str_eq(b, "run") || text::str_eq(b, "shell") {
        ToolKindTag::Execute
    } else {
        ToolKindTag::Other
    }
}

// ---------------------------------------------------------------------------
// Clipping displayed text
// ---------------------------------------------------------------------------

/// The number of leading characters of `s` that fit in `limit` bytes.
pub open spec fn chars_within(s: Seq<char>, limit: int) -> nat
    decreases s.len(),
{
    if s.len() == 0 || (text_editing::utf8_width(s[0]) as int) > limit {
        0
    } else {
        1 + chars_within(s.drop_first(), limit - text_editing::utf8_width(s[0]))
    }
}

/// What `clip` returns: the text when it fits in `limit` bytes, else its
/// longest prefix that fits, with a marker saying it was cut.
pub open spec fn clip_spec(t: Seq<char>, limit: nat) -> Seq<char> {
    if text_editing::byte_len(t) <= limit {
        t
    } else {
        t.subrange(0, chars_within(t, limit as int) as int) + "…（截断，只显示前 "@ + text::dec(limit)
            + " 字节）"@
    }
}

proof fn lemma_byte_len_front(s: Seq<char>)
    requires
        s.len() > 0,
    ensures
        text_editing::byte_len(s) == text_editing::utf8_width(s[0]) + text_editing::byte_len(s.drop_first()),
    decreases s.len(),
{
    if s.len() > 1 {
        lemma_byte_len_front(s.drop_last());
        assert(s.drop_last().drop_first() =~= s.drop_first().drop_last());
    } else {
        assert(s.drop_first() =~= Seq::<char>::empty());
        assert(s.drop_last() =~= Seq::<char>::empty());
    }
}

/// Truncates display text at `limit` bytes with a marker (see `clip_spec`).
pub fn clip(text: &str, limit: usize) -> (r: String)
    ensures
        r@ == clip_spec(text@, limit as nat),
{
    let cs = text::chars_of(text);
    // Walk the characters while they fit.
    let mut i: usize = 0;
    let mut used: usize = 0;
    let mut fits = true;
    assert(cs@.subrange(0, 0) =~= Seq::<char>::empty());
    assert(cs@.subrange(0, cs@.len() as int) =~= cs@);
    while i < cs.len() && fits
        invariant
            0 <= i <= cs@.len(),
            used <= limit,
            used == text_editing::byte_len(cs@.subrange(0, i as int)),
            fits ==> chars_within(cs@, limit as int) == i + chars_within(cs@.subrange(i as int, cs@.len() as int), limit - used),
            !fits ==> chars_within(cs@, limit as int) == i && text_editing::byte_len(cs@) > limit,
        decreases cs@.len() - i, if fits { 1int } else { 0int },
    {
        let w: usize = if (cs[i] as u32) < 0x80 {
            1
        } else if (cs[i] as u32) < 0x800 {
            2
        } else if (cs[i] as u32) < 0x10000 {
            3
        } else {
            4
        };
        let ghost rest = cs@.subrange(i as int, cs@.len() as int);
        assert(rest[0] == cs@[i as int]);
        if w > limit - used {
            fits = false;
            proof {
                lemma_byte_len_front(rest);
                assert(cs@ =~= cs@.subrange(0, i as int) + rest);
                crate::text_editing::lemma_byte_len_concat(cs@.subrange(0, i as int), rest);
            }
        } else {
            proof {
                assert(rest.drop_first() =~= cs@.subrange(i + 1, cs@.len() as int));
                assert(cs@.subrange(0, i + 1).drop_last() =~= cs@.subrange(0, i as int));
            }
            used = used + w;
            i = i + 1;
        }
    }
    if fits {
        proof {
            assert(cs@.subrange(0, cs@.len() as int) =~= cs@);
        }
        return text::owned(text);
    }
    let mut r = text::string_of_range(&cs, 0, i);
    text::push_str(&mut r, "…（截断，只显示前 ");
    text::push_dec(&mut r, limit);
    text::push_str(&mut r, " 字节）");
    r
}

// ---------------------------------------------------------------------------
// Reports of the local tools
// ---------------------------------------------------------------------------

/// Most bytes of a file the `read` tool hands back.
pub const READ_LIMIT: usize = 8000;

/// What the `read` tool reports for a file's text: the text, or past
/// `READ_LIMIT` bytes its first `READ_LIMIT` bytes with a marker. The cut
/// must fall between characters.
pub fn read_report(content: &str) -> (r: String)
    requires
        text_editing::byte_len(content@) > READ_LIMIT ==> text_editing::byte_len(
            content@.subrange(0, chars_within(content@, READ_LIMIT as int) as int),
        ) == READ_LIMIT,
    ensures
        r@ == clip_spec(content@, READ_LIMIT as nat),
{
    clip(content, READ_LIMIT)
}

/// What the `write` tool reports after writing `content` to `target`.
pub open spec fn write_report_spec(target: Seq<char>, content: Seq<char>) -> Seq<char> {
    "已写入 "@ + target + "（"@ + text::dec(text_editing::byte_len(content)) + " 字节）"@
}

/// The report of a successful write: the target and the bytes written.
pub fn write_report(target: &str, content: &str) -> (r: String)
    ensures
        r@ == write_report_spec(target@, content@),
{
    let cs = text::chars_of(content);
    let n = text_editing::byte_len_wide(&cs, cs.len());
    assert(cs@.subrange(0, cs@.len() as int) =~= cs@);
    let mut r = text::owned("已写入 ");
    text::push_str(&mut r, target);
    text::push_str(&mut r, "（");
    text::push_dec_u128(&mut r, n);
    text::push_str(&mut r, " 字节）");
    r
}

/// The report of a finished shell command: its output, then its error
/// output under a `[stderr]` line where there is any, then `[exit ..]`
/// where it did not succeed.
pub open spec fn shell_report_spec(stdout: Seq<char>, stderr: Seq<char>, failed_exit: Option<Seq<char>>) -> Seq<char> {
    stdout + (if stderr.len() > 0 { "\n[stderr]\n"@ + stderr } else { Seq::empty() }) + match failed_exit {
        Some(e) => "\n[exit "@ + e + "]"@,
        None => Seq::empty(),
    }
}

/// Builds the report of a finished shell command (see `shell_report_spec`);
/// `failed_exit` is the exit status text of a command that failed.
pub fn shell_report(stdout: &str, stderr: &str, failed_exit: Option<&str>) -> (r: String)
    ensures
        r@ == shell_report_spec(stdout@, stderr@, match failed_exit {
            Some(e) => Some(e@),
            None => None,
        }),
{
    let mut r = text::owned(stdout);
    let ghost a = r@;
    if !stderr.is_empty() {
        text::push_str(&mut r, "\n[stderr]\n");
        text::push_str(&mut r, stderr);
    }
    let ghost b = r@;
    match failed_exit {
        Some(e) => {
            text::push_str(&mut r, "\n[exit ");
            text::push_str(&mut r, e);
            text::push_str(&mut r, "]");
        },
        None => {},
    }
    proof {
        if stderr@.len() > 0 {
            assert(b =~= stdout@ + ("\n[stderr]\n"@ + stderr@));
        } else {
            assert(b =~= stdout@ + Seq::<char>::empty());
        }
    }
    r
}

/// The local tools.
#[derive(Debug, Clone, Copy, PartialEq, Eq, Structural)]
pub enum LocalTool {
    Run,
    Read,
    Write,
}

/// The string arguments of a local tool call, each empty where absent.
pub struct LocalArgs {
    pub command: String,
    pub path: String,
    pub content: String,
}

/// What a model-requested local call comes to: arguments that are not JSON
/// and unknown tools are refused with a message; else the tool and the
/// title the call is shown under.
pub open spec fn plan_local_spec(name: Seq<char>, arguments: Seq<char>, args: Option<(Seq<char>, Seq<char>)>) -> Result<
    (LocalTool, Seq<char>),
    Seq<char>,
> {
    match args {
        None => Err("工具参数不是合法 JSON（"@ + name + "）："@ + arguments),
        Some((command, path)) => if name == "run"@ {
            Ok((LocalTool::Run, "run: "@ + command))
        } else if name == "read"@ {
            Ok((LocalTool::Read, "read "@ + path))
        } else if name == "write"@ {
            Ok((LocalTool::Write, "write "@ + path))
        } else {
            Err("未知工具："@ + name + "（可用：run、read、write）"@)
        },
    }
}

/// Plans a local tool call (see `plan_local_spec`); `args` is `None` where
/// the arguments did not parse as JSON.
pub fn plan_local_call(name: &str, arguments: &str, args: &Option<LocalArgs>) -> (r: Result<(LocalTool, String), String>)
    ensures
        match r {
            Ok((t, title)) => plan_local_spec(name@, arguments@, match args {
                Some(a) => Some((a.command@, a.path@)),
                None => None,
            }) == Ok::<(LocalTool, Seq<char>), Seq<char>>((t, title@)),
            Err(e) => plan_local_spec(name@, arguments@, match args {
                Some(a) => Some((a.command@, a.path@)),
                None => None,
            }) == Err::<(LocalTool, Seq<char>), Seq<char>>(e@),
        },
{
    match args {
        None => {
            let mut m = text::owned("工具参数不是合法 JSON（");
            text::push_str(&mut m, name);
            text::push_str(&mut m, "）：");
            text::push_str(&mut m, arguments);
            Err(m)
        },
        Some(a) => {
            if text::str_eq(name, "run") {
                let mut t = text::owned("run: ");
                text::push_str(&mut t, a.command.as_str());
                Ok((LocalTool::Run, t))
            } else if text::str_eq(name, "read") {
                let mut t = text::owned("read ");
                text::push_str(&mut t, a.path.as_str());
                Ok((LocalTool::Read, t))
            } else if text::str_eq(name, "write") {
                let mut t = text::owned("write ");
                text::push_str(&mut t, a.path.as_str());
                Ok((LocalTool::Write, t))
            } else {
                let mut m = text::owned("未知工具：");
                text::push_str(&mut m, name);
                text::push_str(&mut m, "（可用：run、read、write）");
                Err(m)
            }
        },
    }
}

/// What the client answered to a permission request.
pub enum PermissionReply {
    /// An option was chosen, by its id.
    Selected(String),
    /// The request was cancelled.
    Cancelled,
    /// Some other outcome.
    Other,
    /// The request itself failed.
    Failed,
}

/// What follows from a permission answer: whether the tool may run,
/// whether to remember "allow always", and the decision for the audit log.
pub struct PermissionDecision {
    pub allowed: bool,
    pub remember: bool,
    pub audit: String,
}

/// The decision a permission answer comes to.
pub open spec fn decide_spec(reply: PermissionReply) -> (bool, bool, Seq<char>) {
    match reply {
        PermissionReply::Selected(id) => {
            let allowed = id@ == "allow-once"@ || id@ == "allow-always"@;
            (allowed, id@ == "allow-always"@, if allowed { id@ } else { "deny"@ })
        },
        PermissionReply::Cancelled => (false, false, "cancelled"@),
        PermissionReply::Other => (false, false, "deny"@),
        PermissionReply::Failed => (false, false, "error"@),
    }
}

/// Decides on a permission answer: "allow once" and "allow always" let the
/// tool run, the latter remembered for the session; anything else denies.
pub fn decide_permission(reply: &PermissionReply) -> (d: PermissionDecision)
    ensures
        (d.allowed, d.remember, d.audit@) == decide_spec(*reply),
{
    match reply {
        PermissionReply::Selected(id) => {
            let always = text::str_eq(id.as_str(), "allow-always");
            let once = text::str_eq(id.as_str(), "allow-once");
            let allowed = once || always;
            let audit = if allowed { id.clone() } else { text::owned("deny") };
            PermissionDecision { allowed, remember: always, audit }
        },
        PermissionReply::Cancelled => PermissionDecision { allowed: false, remember: false, audit: text::owned("cancelled") },
        PermissionReply::Other => PermissionDecision { allowed: false, remember: false, audit: text::owned("deny") },
        PermissionReply::Failed => PermissionDecision { allowed: false, remember: false, audit: text::owned("error") },
    }
}

/// Outcome of one local tool call.
pub struct ToolOutcome {
    pub output: String,
    pub cancelled: bool,
}

/// What the model is told when the user refused a tool call.
pub fn denied_outcome() -> (o: ToolOutcome)
    ensures
        !o.cancelled,
        o.output@ == "用户拒绝了这次工具调用。"@,
{
    ToolOutcome { output: text::owned("用户拒绝了这次工具调用。"), cancelled: false }
}

} // verus!
