//! The octofs server's own decisions around its tools: the command line,
//! the session root, the shell tool (arguments, misuse hints, reports, the
//! children to stop), the working-directory tool, and lock keys.
use vstd::prelude::*;
use crate::text;
use crate::hints;
use crate::line_hash::LineMode;
use crate::paths;

verus! {

// ---------------------------------------------------------------------------
// Command line
// ---------------------------------------------------------------------------

/// The subcommands of the server.
pub enum Commands {
    /// Serve the tools over MCP: over HTTP at `bind` where given, else on
    /// stdin/stdout; `path` is the working directory.
    Mcp {
        path: Option<String>,
        bind: Option<String>,
        line_mode: String,
    },
}

/// The parsed command line.
pub struct Cli {
    pub command: Commands,
}

/// The line mode named on the command line: `hash`, else numbers.
pub fn parse_line_mode(s: &str) -> (m: LineMode)
    ensures
        m == (if s@ == "hash"@ { LineMode::Hash } else { LineMode::Number }),
{
    if text::str_eq(s, "hash") {
        LineMode::Hash
    } else {
        LineMode::Number
    }
}

// ---------------------------------------------------------------------------
// Session root
// ---------------------------------------------------------------------------

/// The directory the server was started for, settable once.
pub struct SessionRoot {
    root: Option<String>,
}

impl SessionRoot {
    /// No root set yet.
    pub fn new() -> (r: Self)
        ensures
            r.root() is None,
    {
        SessionRoot { root: None }
    }

    /// The root that was set, if any.
    pub closed spec fn root(&self) -> Option<Seq<char>> {
        match self.root {
            Some(s) => Some(s@),
            None => None,
        }
    }
}

/// Sets the session root; only the first call has an effect.
pub fn set_session_root_directory(r: &mut SessionRoot, path: String)
    ensures
        final(r).root() == (match old(r).root() {
            Some(p) => Some(p),
            None => Some(path@),
        }),
{
    if r.root.is_none() {
        r.root = Some(path);
    }
}

/// The session root, or `current_dir` (the process's directory) where none
/// was set.
pub fn get_session_root_directory(r: &SessionRoot, current_dir: &str) -> (d: String)
    ensures
        d@ == (match r.root() {
            Some(p) => p,
            None => current_dir@,
        }),
{
    match &r.root {
        Some(p) => p.clone(),
        None => text::owned(current_dir),
    }
}

// ---------------------------------------------------------------------------
// Tool parameters
// ---------------------------------------------------------------------------

/// A parameter of a tool call, as far as a string parameter is concerned.
pub enum Param {
    Absent,
    Text(String),
    /// Present, but not a string.
    Other,
}

/// The view of a parameter.
pub open spec fn param_view(p: &Param) -> Option<Option<Seq<char>>> {
    match p {
        Param::Absent => None,
        Param::Text(s) => Some(Some(s@)),
        Param::Other => Some(None),
    }
}

// ---------------------------------------------------------------------------
// Shell tool
// ---------------------------------------------------------------------------

/// The shell command of a call, or why there is none.
pub open spec fn command_param_spec(p: Option<Option<Seq<char>>>) -> Result<Seq<char>, Seq<char>> {
    match p {
        None => Err("Missing required 'command' parameter"@),
        Some(None) => Err("Command parameter must be a string"@),
        Some(Some(c)) => if text::trim(c).len() == 0 {
            Err("Command parameter cannot be empty"@)
        } else {
            Ok(c)
        },
    }
}

/// The shell command of a call (see `command_param_spec`).
pub fn command_param(p: &Param) -> (r: Result<String, String>)
    ensures
        match r {
            Ok(c) => command_param_spec(param_view(p)) == Ok::<Seq<char>, Seq<char>>(c@),
            Err(e) => command_param_spec(param_view(p)) == Err::<Seq<char>, Seq<char>>(e@),
        },
{
    match p {
        Param::Absent => Err(text::owned("Missing required 'command' parameter")),
        Param::Other => Err(text::owned("Command parameter must be a string")),
        Param::Text(c) => {
            let cs = text::chars_of(c.as_str());
            let t = text::trim_chars(&cs);
            if t.len() == 0 {
                Err(text::owned("Command parameter cannot be empty"))
            } else {
                Ok(c.clone())
            }
        },
    }
}

/// The misuse hints: programs better served by another tool, and the hint.
pub open spec fn misuse_rules() -> Seq<(Seq<Seq<char>>, Seq<char>)> {
    seq![
        (seq!["cat"@, "head"@, "tail"@, "less"@, "more"@], "⚠️ Prefer `view` for reading files (line-numbered, supports ranges). Use shell only when piping output."@),
        (seq!["grep"@, "egrep"@, "fgrep"@, "rg"@], "⚠️ Use `view` with content= to search for text in files or directories (gitignore-aware, context lines, line numbers)."@),
        (seq!["find"@, "ls"@], "⚠️ Prefer `view` for directory listing (.gitignore-aware, pattern/content filtering). Use shell only for system paths outside the project."@),
        (seq!["sed"@, "awk"@], "⚠️ Prefer `text_editor` str_replace/line_replace for file edits (atomic, tracked). Use sed/awk only for stream transforms in pipelines."@),
    ]
}

/// Whether the (trimmed) command runs `prog`: it is `prog`, or starts with
/// `prog` and a space or a tab.
pub open spec fn runs_prog(cmd: Seq<char>, prog: Seq<char>) -> bool {
    cmd == prog || crate::glob::starts(cmd, prog.push(' ')) || crate::glob::starts(cmd, prog.push('\t'))
}

/// The hint of the first rule from `i` on one of whose programs the command runs.
pub open spec fn misuse_from(cmd: Seq<char>, i: int) -> Option<Seq<char>>
    decreases misuse_rules().len() - i,
{
    if i < 0 || i >= misuse_rules().len() {
        None
    } else if exists|k: int| 0 <= k < misuse_rules()[i].0.len() && runs_prog(cmd, #[trigger] misuse_rules()[i].0[k]) {
        Some(misuse_rules()[i].1)
    } else {
        misuse_from(cmd, i + 1)
    }
}

fn misuse_rules_exec() -> (v: Vec<(Vec<&'static str>, &'static str)>)
    ensures
        v@.len() == misuse_rules().len(),
        forall|i: int| 0 <= i < v@.len() ==> crate::line_hash::str_views((#[trigger] v@[i]).0@) == misuse_rules()[i].0
            && v@[i].1@ == misuse_rules()[i].1,
{
    let a = vec!["cat", "head", "tail", "less", "more"];
    let b = vec!["grep", "egrep", "fgrep", "rg"];
    let c = vec!["find", "ls"];
    let d = vec!["sed", "awk"];
    assert(crate::line_hash::str_views(a@) =~= misuse_rules()[0].0);
    assert(crate::line_hash::str_views(b@) =~= misuse_rules()[1].0);
    assert(crate::line_hash::str_views(c@) =~= misuse_rules()[2].0);
    assert(crate::line_hash::str_views(d@) =~= misuse_rules()[3].0);
    vec![
        (a, "⚠️ Prefer `view` for reading files (line-numbered, supports ranges). Use shell only when piping output."),
        (b, "⚠️ Use `view` with content= to search for text in files or directories (gitignore-aware, context lines, line numbers)."),
        (c, "⚠️ Prefer `view` for directory listing (.gitignore-aware, pattern/content filtering). Use shell only for system paths outside the project."),
        (d, "⚠️ Prefer `text_editor` str_replace/line_replace for file edits (atomic, tracked). Use sed/awk only for stream transforms in pipelines."),
    ]
}

fn runs_prog_exec(cmd: &Vec<char>, prog: &str) -> (b: bool)
    ensures
        b == runs_prog(cmd@, prog@),
{
    let p = text::chars_of(prog);
    let mut ps = p.clone();
    ps.push(' ');
    let mut pt = p.clone();
    pt.push('\t');
    assert(ps@ =~= prog@.push(' ') && pt@ =~= prog@.push('\t'));
    text::seq_eq(cmd, &p) || crate::search::occurs_at_exec(cmd, &ps, 0) || crate::search::occurs_at_exec(cmd, &pt, 0)
}

/// The hint for a shell command that another tool does better: reading,
/// searching, listing and editing files (see `misuse_rules`).
pub fn detect_shell_misuse(command: &str) -> (r: Option<&'static str>)
    ensures
        match r {
            Some(h) => misuse_from(text::trim(command@), 0) == Some(h@),
            None => misuse_from(text::trim(command@), 0) is None,
        },
{
    let cs = text::chars_of(command);
    let cmd = text::trim_chars(&cs);
    let rules = misuse_rules_exec();
    let mut i: usize = 0;
    while i < rules.len()
        invariant
            0 <= i <= rules@.len(),
            rules@.len() == misuse_rules().len(),
            forall|j: int| 0 <= j < rules@.len() ==> crate::line_hash::str_views((#[trigger] rules@[j]).0@)
                == misuse_rules()[j].0 && rules@[j].1@ == misuse_rules()[j].1,
            cmd@ == text::trim(command@),
            misuse_from(cmd@, 0) == misuse_from(cmd@, i as int),
        decreases rules@.len() - i,
    {
        let progs = &rules[i].0;
        let ghost pv = misuse_rules()[i as int].0;
        assert(crate::line_hash::str_views(rules@[i as int].0@) == pv);
        let mut k: usize = 0;
        let mut hit = false;
        while k < progs.len()
            invariant
                0 <= k <= progs@.len(),
                crate::line_hash::str_views(progs@) == pv,
                hit ==> exists|t: int| 0 <= t < pv.len() && runs_prog(cmd@, #[trigger] pv[t]),
                !hit ==> forall|t: int| 0 <= t < k ==> !runs_prog(cmd@, #[trigger] pv[t]),
            decreases progs@.len() - k,
        {
            assert(pv[k as int] == progs@[k as int]@);
            if runs_prog_exec(&cmd, progs[k]) {
                hit = true;
            }
            k = k + 1;
        }
        if hit {
            return Some(rules[i].1);
        }
        i = i + 1;
    }
    None
}

/// The report of a shell command started in the background.
pub fn background_report(pid: u32) -> (r: String)
    ensures
        r@ == "Command started in background with PID "@ + text::dec(pid as nat)
            + "\nUse 'kill "@ + text::dec(pid as nat) + "' to terminate this background process if needed"@,
{
    let mut r = text::owned("Command started in background with PID ");
    text::push_dec_u64(&mut r, pid as u64);
    text::push_str(&mut r, "\nUse 'kill ");
    text::push_dec_u64(&mut r, pid as u64);
    text::push_str(&mut r, "' to terminate this background process if needed");
    r
}

/// The output of a finished shell command: its output, its error output,
/// or both with the error output under `Error:`.
pub open spec fn combined_output(stdout: Seq<char>, stderr: Seq<char>) -> Seq<char> {
    if stderr.len() == 0 {
        stdout
    } else if stdout.len() == 0 {
        stderr
    } else {
        stdout + "\n\nError: "@ + stderr
    }
}

/// What the shell tool answers for a finished command: its combined output
/// on success, else an error with the exit code (`-1` for none), the
/// command and the output.
pub open spec fn shell_result_spec(command: Seq<char>, stdout: Seq<char>, stderr: Seq<char>, success: bool, code: int) -> Result<
    Seq<char>,
    Seq<char>,
> {
    if success {
        Ok(combined_output(stdout, stderr))
    } else {
        Err("Command failed with exit code "@ + crate::truncation::idec(code) + "\nCommand: "@ + command
            + "\n\nOutput:\n"@ + combined_output(stdout, stderr))
    }
}

/// Finishes a shell call (see `shell_result_spec`), and queues the misuse
/// hint for the command where there is one.
pub fn finish_shell(
    command: &str,
    stdout: &str,
    stderr: &str,
    success: bool,
    code: Option<i32>,
    hints_queue: &mut hints::HintQueue,
) -> (r: Result<String, String>)
    ensures
        ({
            let c = match code {
                Some(c) => c as int,
                None => -1,
            };
            match r {
                Ok(o) => shell_result_spec(command@, stdout@, stderr@, success, c) == Ok::<Seq<char>, Seq<char>>(o@),
                Err(e) => shell_result_spec(command@, stdout@, stderr@, success, c) == Err::<Seq<char>, Seq<char>>(e@),
            }
        }),
        hints::hint_views(final(hints_queue).hints@) == (match misuse_from(text::trim(command@), 0) {
            Some(h) => hints::hint_views(old(hints_queue).hints@).push(h),
            None => hints::hint_views(old(hints_queue).hints@),
        }),
{
    let combined: String = if stderr.is_empty() {
        text::owned(stdout)
    } else if stdout.is_empty() {
        text::owned(stderr)
    } else {
        let mut s = text::owned(stdout);
        text::push_str(&mut s, "\n\nError: ");
        text::push_str(&mut s, stderr);
        s
    };
    assert(combined@ == combined_output(stdout@, stderr@));
    match detect_shell_misuse(command) {
        Some(h) => hints::push_hint(hints_queue, h),
        None => {},
    }
    if success {
        Ok(combined)
    } else {
        let c: i32 = match code {
            Some(c) => c,
            None => -1,
        };
        let mut m = text::owned("Command failed with exit code ");
        let ghost m0 = m@;
        if c < 0 {
            text::push_str(&mut m, "-");
            let a: u64 = if c == i32::MIN { 2147483648u64 } else { (-c) as u64 };
            assert(a as int == -(c as int));
            text::push_dec_u64(&mut m, a);
            proof {
                reveal_strlit("-");
                assert(m@ =~= m0 + crate::truncation::idec(c as int));
            }
        } else {
            text::push_dec_u64(&mut m, c as u64);
            assert(m@ =~= m0 + crate::truncation::idec(c as int));
        }
        text::push_str(&mut m, "\nCommand: ");
        text::push_str(&mut m, command);
        text::push_str(&mut m, "\n\nOutput:\n");
        text::push_str(&mut m, combined.as_str());
        Err(m)
    }
}

/// The process groups of running shell children, each once.
pub struct ShellChildren {
    pids: Vec<u32>,
}

impl ShellChildren {
    /// No children.
    pub fn new() -> (s: Self)
        ensures
            s@ == Set::<u32>::empty(),
    {
        ShellChildren { pids: Vec::new() }
    }

    /// The children's ids.
    pub closed spec fn view(&self) -> Set<u32> {
        self.pids@.to_set()
    }

    /// No id is kept twice.
    pub closed spec fn wf(&self) -> bool {
        self.pids@.no_duplicates()
    }
}

/// Records a running child.
pub fn register_child(children: &mut ShellChildren, pid: u32)
    requires
        old(children).wf(),
    ensures
        final(children).wf(),
        final(children)@ == old(children)@.insert(pid),
{
    let ghost before = children.pids@;
    let mut i: usize = 0;
    while i < children.pids.len()
        invariant
            0 <= i <= children.pids@.len(),
            children.pids@ == before,
            before == old(children).pids@,
            before.no_duplicates(),
            forall|j: int| 0 <= j < i ==> children.pids@[j] != pid,
        decreases children.pids@.len() - i,
    {
        if children.pids[i] == pid {
            proof {
                assert(before.to_set().contains(pid)) by {
                    assert(before.contains(pid));
                }
                assert(before.to_set().insert(pid) =~= before.to_set());
            }
            return;
        }
        i = i + 1;
    }
    children.pids.push(pid);
    proof {
        broadcast use vstd::seq_lib::group_seq_properties;
        assert(!before.contains(pid));
        assert(children.pids@ == before.push(pid));
        assert(children.pids@.to_set() =~= before.to_set().insert(pid));
    }
}

/// Forgets a child that finished.
pub fn unregister_child(children: &mut ShellChildren, pid: u32)
    requires
        old(children).wf(),
    ensures
        final(children).wf(),
        final(children)@ == old(children)@.remove(pid),
{
    let ghost before = children.pids@;
    let mut i: usize = 0;
    while i < children.pids.len()
        invariant
            0 <= i <= children.pids@.len(),
            children.pids@ == before,
            before == old(children).pids@,
            before.no_duplicates(),
            forall|j: int| 0 <= j < i ==> children.pids@[j] != pid,
        decreases children.pids@.len() - i,
    {
        if children.pids[i] == pid {
            children.pids.remove(i);
            proof {
                let after = children.pids@;
                assert(after =~= before.remove(i as int));
                assert forall|a: int, b: int| 0 <= a < b < after.len() implies after[a] != after[b] by {
                    let a2 = if a < i { a } else { a + 1 };
                    let b2 = if b < i { b } else { b + 1 };
                    assert(before[a2] != before[b2]);
                }
                assert(after.no_duplicates());
                assert forall|x: u32| after.to_set().contains(x) <==> before.to_set().remove(pid).contains(x) by {
                    if after.contains(x) {
                        let w = choose|w: int| 0 <= w < after.len() && after[w] == x;
                        let w2 = if w < i { w } else { w + 1 };
                        assert(before[w2] == x);
                        assert(w2 != i);
                        assert(before.contains(x));
                    }
                    if before.contains(x) && x != pid {
                        let w = choose|w: int| 0 <= w < before.len() && before[w] == x;
                        assert(w != i);
                        let w1 = if w < i { w } else { w - 1 };
                        assert(after[w1] == x);
                        assert(after.contains(x));
                    }
                    if after.contains(x) && x == pid {
                        let w = choose|w: int| 0 <= w < after.len() && after[w] == x;
                        let w2 = if w < i { w } else { w + 1 };
                        assert(before[w2] == pid);
                        assert(before[i as int] == pid);
                    }
                }
                assert(after.to_set() =~= before.to_set().remove(pid));
            }
            return;
        }
        i = i + 1;
    }
    proof {
        assert(!before.contains(pid));
        assert(before.to_set().remove(pid) =~= before.to_set());
    }
}

/// Takes every recorded child, to be stopped with its process group; none
/// is left recorded.
pub fn kill_all_shell_children(children: &mut ShellChildren) -> (pids: Vec<u32>)
    requires
        old(children).wf(),
    ensures
        final(children).wf(),
        final(children)@ == Set::<u32>::empty(),
        pids@.no_duplicates(),
        pids@.to_set() == old(children)@,
{
    let mut taken: Vec<u32> = Vec::new();
    std::mem::swap(&mut taken, &mut children.pids);
    proof {
        assert(children.pids@.to_set() =~= Set::<u32>::empty());
    }
    taken
}

// ---------------------------------------------------------------------------
// Working-directory tool
// ---------------------------------------------------------------------------

/// What the working-directory tool did.
pub enum WorkdirResult {
    Get { working_directory: String },
    Changed { previous: String, current: String },
    Reset,
}

impl WorkdirResult {
    /// The human-readable message of the result (`None` for a reset).
    pub fn message(&self) -> (m: Option<String>)
        ensures
            match self {
                WorkdirResult::Get { working_directory } => m matches Some(s) && s@ == "Current working directory: "@
                    + working_directory@,
                WorkdirResult::Changed { previous, current } => m matches Some(s) && s@ == "Working directory changed from "@
                    + previous@ + " to "@ + current@,
                WorkdirResult::Reset => m is None,
            },
    {
        match self {
            WorkdirResult::Get { working_directory } => {
                let mut s = text::owned("Current working directory: ");
                text::push_str(&mut s, working_directory.as_str());
                Some(s)
            },
            WorkdirResult::Changed { previous, current } => {
                let mut s = text::owned("Working directory changed from ");
                text::push_str(&mut s, previous.as_str());
                text::push_str(&mut s, " to ");
                text::push_str(&mut s, current.as_str());
                Some(s)
            },
            WorkdirResult::Reset => None,
        }
    }
}

/// What a working-directory call asks for.
pub enum WorkdirRequest {
    Reset,
    Get,
    /// Change to this path (the trimmed parameter, made absolute against
    /// the current working directory), once the disk confirms it.
    Change(String),
}

/// What a working-directory call asks for: a reset, the current directory
/// (no path), or a change to a path; a path that is not a non-empty string
/// is refused.
pub open spec fn workdir_request_spec(reset: bool, path: Option<Option<Seq<char>>>, workdir: Seq<char>) -> Result<
    Option<Option<Seq<char>>>,
    Seq<char>,
> {
    if reset {
        Ok(None)
    } else {
        match path {
            None => Ok(Some(None)),
            Some(Some(p)) => if text::trim(p).len() > 0 {
                Ok(Some(Some(paths::join_path(workdir, text::trim(p)))))
            } else {
                Err("Parameter 'path' must be a non-empty string"@)
            },
            Some(None) => Err("Parameter 'path' must be a non-empty string"@),
        }
    }
}

/// The view of a request: reset `None`, get `Some(None)`, change `Some(Some(path))`.
pub open spec fn request_view(r: &WorkdirRequest) -> Option<Option<Seq<char>>> {
    match r {
        WorkdirRequest::Reset => None,
        WorkdirRequest::Get => Some(None),
        WorkdirRequest::Change(p) => Some(Some(p@)),
    }
}

/// Reads a working-directory call (see `workdir_request_spec`).
pub fn workdir_request(reset: bool, path: &Param, workdir: &str) -> (r: Result<WorkdirRequest, String>)
    ensures
        match r {
            Ok(q) => workdir_request_spec(reset, param_view(path), workdir@) == Ok::<Option<Option<Seq<char>>>, Seq<char>>(
                request_view(&q),
            ),
            Err(e) => workdir_request_spec(reset, param_view(path), workdir@) == Err::<Option<Option<Seq<char>>>, Seq<
                char,
            >>(e@),
        },
{
    if reset {
        return Ok(WorkdirRequest::Reset);
    }
    match path {
        Param::Absent => Ok(WorkdirRequest::Get),
        Param::Other => Err(text::owned("Parameter 'path' must be a non-empty string")),
        Param::Text(p) => {
            let cs = text::chars_of(p.as_str());
            let t = text::trim_chars(&cs);
            if t.len() == 0 {
                Err(text::owned("Parameter 'path' must be a non-empty string"))
            } else {
                let ts = text::string_of(&t);
                Ok(WorkdirRequest::Change(paths::join_paths(workdir, ts.as_str())))
            }
        },
    }
}

/// What the disk said of a requested directory.
pub enum DirCheck {
    /// It could not be resolved; the error's text.
    Missing(String),
    /// Its canonical path, and whether it is a directory.
    Found(String, bool),
}

/// Completes a change of working directory once the disk has been asked:
/// a missing path or a non-directory is refused, else the change is made.
pub fn workdir_change(previous: &str, requested: &str, check: DirCheck) -> (r: Result<WorkdirResult, String>)
    ensures
        match check {
            DirCheck::Missing(e) => r matches Err(m) && m@ == "Path does not exist or is not accessible: "@ + requested@
                + " (error: "@ + e@ + ")"@,
            DirCheck::Found(c, is_dir) => if is_dir {
                r matches Ok(WorkdirResult::Changed { previous: p, current: q }) && p@ == previous@ && q@ == c@
            } else {
                r matches Err(m) && m@ == "Path is not a directory: "@ + c@
            },
        },
{
    match check {
        DirCheck::Missing(e) => {
            let mut m = text::owned("Path does not exist or is not accessible: ");
            text::push_str(&mut m, requested);
            text::push_str(&mut m, " (error: ");
            text::push_str(&mut m, e.as_str());
            text::push_str(&mut m, ")");
            Err(m)
        },
        DirCheck::Found(c, is_dir) => {
            if is_dir {
                Ok(WorkdirResult::Changed { previous: text::owned(previous), current: c })
            } else {
                let mut m = text::owned("Path is not a directory: ");
                text::push_str(&mut m, c.as_str());
                Err(m)
            }
        },
    }
}

// ---------------------------------------------------------------------------
// File lock keys
// ---------------------------------------------------------------------------

/// The file name of a path: its last component, where that is a name.
pub open spec fn file_name(p: Seq<char>) -> Option<Seq<char>> {
    let c = paths::path_comps(p);
    if c.len() > 0 && c.last() != seq!['/'] && c.last() != seq!['.'] && c.last() != seq!['.', '.'] {
        Some(c.last())
    } else {
        None
    }
}

/// The key that serializes edits of a file: its canonical path where the
/// disk gives one, else its canonical parent joined with its file name,
/// else the path as given. `canonical` is the canonical form of `path`,
/// `canonical_parent` that of its parent directory.
pub open spec fn lock_key_spec(p: Seq<char>, canonical: Option<Seq<char>>, canonical_parent: Option<Seq<char>>) -> Seq<char> {
    match canonical {
        Some(c) => c,
        None => match (file_name(p), canonical_parent) {
            (Some(n), Some(cp)) => paths::join_path(cp, n),
            _ => p,
        },
    }
}

/// The lock key of a path (see `lock_key_spec`).
pub fn lock_key_for(path: &str, canonical: Option<&str>, canonical_parent: Option<&str>) -> (k: String)
    ensures
        k@ == lock_key_spec(path@, match canonical {
            Some(c) => Some(c@),
            None => None,
        }, match canonical_parent {
            Some(c) => Some(c@),
            None => None,
        }),
{
    match canonical {
        Some(c) => text::owned(c),
        None => {
            let comps = paths::components(path);
            let n = comps.len();
            if n == 0 {
                return text::owned(path);
            }
            let last = &comps[n - 1];
            assert(text::views(comps@).last() == last@);
            let lv = text::chars_of(last.as_str());
            let is_root = lv.len() == 1 && lv[0] == '/';
            let is_dot = lv.len() == 1 && lv[0] == '.';
            let is_dotdot = lv.len() == 2 && lv[0] == '.' && lv[1] == '.';
            proof {
                if lv@ == seq!['/'] || lv@ == seq!['.'] {
                    assert(lv@.len() == 1);
                }
                if lv@ == seq!['.', '.'] {
                    assert(lv@.len() == 2);
                }
                if is_root {
                    assert(lv@ =~= seq!['/']);
                }
                if is_dot {
                    assert(lv@ =~= seq!['.']);
                }
                if is_dotdot {
                    assert(lv@ =~= seq!['.', '.']);
                }
            }
            if is_root || is_dot || is_dotdot {
                return text::owned(path);
            }
            match canonical_parent {
                Some(cp) => paths::join_paths(cp, last.as_str()),
                None => text::owned(path),
            }
        },
    }
}

} // verus!
