//! Model selection, configuration and the bookkeeping of one streamed model
//! turn (token usage, tool calls assembled from their fragments).
//!
//! Reading the environment and key files, and talking to the endpoint, is
//! the caller's part: these functions take what was read and decide.
use vstd::prelude::*;
use crate::text;

verus! {

/// One selectable model, exposed to the client as a session mode.
pub struct ModelMode {
    /// Mode id (the model id on the endpoint).
    pub id: String,
    pub name: String,
    pub description: String,
    /// The model's context window in tokens, where it was configured.
    pub context_window: Option<u64>,
}

/// A mode as (id, name, description, context window).
pub type ModeView = (Seq<char>, Seq<char>, Seq<char>, Option<u64>);

pub open spec fn mode_view(m: ModelMode) -> ModeView {
    (m.id@, m.name@, m.description@, m.context_window)
}

pub open spec fn modes_view(v: Seq<ModelMode>) -> Seq<ModeView> {
    v.map_values(|m: ModelMode| mode_view(m))
}

/// The built-in modes, in order.
pub open spec fn builtin_modes() -> Seq<ModeView> {
    seq![
        ("qwen3.7-flash"@, "Qwen3.7 Flash"@, "默认，最便宜"@, None),
        ("deepseek-v4-flash"@, "DeepSeek V4 Flash"@, "便宜备选"@, None),
        ("qwen3-coder-flash"@, "Qwen Coder Flash"@, "代码特化"@, None),
    ]
}

fn mode(id: &str, name: &str, description: &str) -> (m: ModelMode)
    ensures
        mode_view(m) == (id@, name@, description@, None::<u64>),
{
    ModelMode { id: text::owned(id), name: text::owned(name), description: text::owned(description), context_window: None }
}

/// The built-in modes (see `builtin_modes`).
pub fn available_modes() -> (v: Vec<ModelMode>)
    ensures
        modes_view(v@) == builtin_modes(),
{
    let v = vec![
        mode("qwen3.7-flash", "Qwen3.7 Flash", "默认，最便宜"),
        mode("deepseek-v4-flash", "DeepSeek V4 Flash", "便宜备选"),
        mode("qwen3-coder-flash", "Qwen Coder Flash", "代码特化"),
    ];
    assert(modes_view(v@) =~= builtin_modes());
    v
}

/// Whether every character of `s` is an ASCII digit.
pub open spec fn all_digits(s: Seq<char>) -> bool {
    forall|i: int| 0 <= i < s.len() ==> '0' <= #[trigger] s[i] <= '9'
}

/// The number the decimal digits `s` spell.
pub open spec fn dec_value(s: Seq<char>) -> int
    decreases s.len(),
{
    if s.len() == 0 {
        0
    } else {
        dec_value(s.drop_last()) * 10 + (s.last() as int - '0' as int)
    }
}

/// A number field: its trimmed text, where that is a decimal number that
/// fits in 64 bits.
pub open spec fn number_field(f: Seq<char>) -> Option<u64> {
    let t = text::trim(f);
    if t.len() > 0 && all_digits(t) && dec_value(t) <= u64::MAX {
        Some(dec_value(t) as u64)
    } else {
        None
    }
}

/// One configured mode `id|name|description|context_window`: the fields are
/// trimmed; an entry of fewer than three fields, or with an empty id, is no
/// mode; the context window is optional.
pub open spec fn mode_entry(e: Seq<char>) -> Option<ModeView> {
    let f = crate::listing::split_by(e, '|');
    if f.len() >= 3 && text::trim(f[0]).len() > 0 {
        Some((text::trim(f[0]), text::trim(f[1]), text::trim(f[2]), if f.len() >= 4 {
            number_field(f[3])
        } else {
            None
        }))
    } else {
        None
    }
}

/// The modes of the entries that are modes, in order.
pub open spec fn mode_entries(es: Seq<Seq<char>>) -> Seq<ModeView>
    decreases es.len(),
{
    if es.len() == 0 {
        Seq::empty()
    } else {
        let prev = mode_entries(es.drop_last());
        match mode_entry(es.last()) {
            Some(m) => prev.push(m),
            None => prev,
        }
    }
}

/// The modes a `NAIL_MODELS` value sets: its comma-separated entries that
/// are modes; the built-in modes where the value is absent or sets none.
pub open spec fn modes_from_config_spec(cfg: Option<Seq<char>>) -> Seq<ModeView> {
    match cfg {
        Some(c) => {
            let m = mode_entries(crate::listing::split_by(c, ','));
            if m.len() > 0 {
                m
            } else {
                builtin_modes()
            }
        },
        None => builtin_modes(),
    }
}

proof fn lemma_dec_value_grows(s: Seq<char>, j: int)
    requires
        all_digits(s),
        0 <= j <= s.len(),
    ensures
        dec_value(s.subrange(0, j)) <= dec_value(s),
        0 <= dec_value(s.subrange(0, j)),
    decreases s.len(),
{
    if s.len() > 0 {
        assert(all_digits(s.drop_last()));
        if j == s.len() {
            assert(s.subrange(0, j) =~= s);
            lemma_dec_value_grows(s.drop_last(), 0);
        } else {
            assert(s.drop_last().subrange(0, j) =~= s.subrange(0, j));
            lemma_dec_value_grows(s.drop_last(), j);
        }
        lemma_dec_value_grows(s.drop_last(), s.len() - 1);
        assert(s.drop_last().subrange(0, s.len() - 1) =~= s.drop_last());
    } else {
        assert(s.subrange(0, j) =~= s);
    }
}

fn number_field_exec(f: &Vec<char>) -> (r: Option<u64>)
    ensures
        r == number_field(f@),
{
    let t = text::trim_chars(f);
    if t.len() == 0 {
        return None;
    }
    let mut v: u64 = 0;
    let mut i: usize = 0;
    while i < t.len()
        invariant
            0 <= i <= t@.len(),
            t@ == text::trim(f@),
            all_digits(t@.subrange(0, i as int)),
            v == dec_value(t@.subrange(0, i as int)),
        decreases t@.len() - i,
    {
        let c = t[i];
        let ghost pre = t@.subrange(0, i as int);
        let ghost next = t@.subrange(0, i + 1);
        assert(next.drop_last() =~= pre);
        assert(next.last() == c);
        if c < '0' || c > '9' {
            assert(!all_digits(t@)) by {
                assert(t@[i as int] == c);
            }
            return None;
        }
        let d: u64 = ((c as u32) - ('0' as u32)) as u64;
        assert(all_digits(next)) by {
            assert forall|k: int| 0 <= k < next.len() implies '0' <= #[trigger] next[k] <= '9' by {
                if k < i {
                    assert(next[k] == pre[k]);
                }
            }
        }
        match v.checked_mul(10) {
            Some(v10) => match v10.checked_add(d) {
                Some(w) => {
                    v = w;
                },
                None => {
                    proof { overflow_means_none(t@, i as int + 1); }
                    return None;
                },
            },
            None => {
                proof { overflow_means_none(t@, i as int + 1); }
                return None;
            },
        }
        i = i + 1;
    }
    assert(t@.subrange(0, t@.len() as int) =~= t@);
    Some(v)
}

proof fn overflow_means_none(t: Seq<char>, j: int)
    requires
        0 < j <= t.len(),
        all_digits(t.subrange(0, j)),
        dec_value(t.subrange(0, j)) > u64::MAX,
    ensures
        !(all_digits(t) && dec_value(t) <= u64::MAX),
{
    if all_digits(t) {
        lemma_dec_value_grows(t, j);
    }
}

fn mode_entry_exec(e: &Vec<char>) -> (r: Option<ModelMode>)
    ensures
        match mode_entry(e@) {
            Some(m) => r matches Some(x) && mode_view(x) == m,
            None => r is None,
        },
{
    let f = crate::listing::split_by_exec(e, '|');
    let ghost fv = crate::listing::split_by(e@, '|');
    assert(f@.len() == fv.len());
    if f.len() < 3 {
        return None;
    }
    assert(f@[0]@ == fv[0] && f@[1]@ == fv[1] && f@[2]@ == fv[2]);
    let id = text::trim_chars(&f[0]);
    if id.len() == 0 {
        return None;
    }
    let name = text::trim_chars(&f[1]);
    let description = text::trim_chars(&f[2]);
    let context_window = if f.len() >= 4 {
        assert(f@[3]@ == fv[3]);
        number_field_exec(&f[3])
    } else {
        None
    };
    Some(
        ModelMode {
            id: text::string_of(&id),
            name: text::string_of(&name),
            description: text::string_of(&description),
            context_window,
        },
    )
}

/// The modes a `NAIL_MODELS` value sets (see `modes_from_config_spec`);
/// `None` where the variable is not set.
pub fn modes_from_config(cfg: Option<&str>) -> (v: Vec<ModelMode>)
    ensures
        modes_view(v@) == modes_from_config_spec(
            match cfg {
                Some(c) => Some(c@),
                None => None,
            },
        ),
{
    let c = match cfg {
        Some(c) => c,
        None => {
            return available_modes();
        },
    };
    let cs = text::chars_of(c);
    let entries = crate::listing::split_by_exec(&cs, ',');
    let ghost ev = crate::listing::split_by(c@, ',');
    let mut out: Vec<ModelMode> = Vec::new();
    let mut i: usize = 0;
    while i < entries.len()
        invariant
            0 <= i <= entries@.len(),
            entries@.map_values(|p: Vec<char>| p@) == ev,
            modes_view(out@) == mode_entries(ev.subrange(0, i as int)),
        decreases entries@.len() - i,
    {
        let ghost pre = ev.subrange(0, i as int);
        assert(ev.subrange(0, i + 1).drop_last() =~= pre);
        assert(ev.subrange(0, i + 1).last() == entries@[i as int]@);
        match mode_entry_exec(&entries[i]) {
            Some(m) => {
                out.push(m);
                assert(modes_view(out@) =~= mode_entries(ev.subrange(0, i + 1)));
            },
            None => {},
        }
        i = i + 1;
    }
    assert(ev.subrange(0, ev.len() as int) =~= ev);
    if out.len() == 0 {
        available_modes()
    } else {
        out
    }
}

/// A count read from the environment: the number `var` holds (see
/// `number_field`), else `default`.
pub open spec fn count_setting_spec(var: Option<Seq<char>>, default: usize) -> usize {
    match var {
        Some(v) => match number_field(v) {
            Some(n) => if n <= usize::MAX {
                n as usize
            } else {
                default
            },
            None => default,
        },
        None => default,
    }
}

/// A count read from the environment (see `count_setting_spec`), such as
/// `NAIL_MAX_TOOL_TURNS` or `NAIL_MAX_TRANSCRIPT`.
pub fn count_setting(var: Option<&str>, default: usize) -> (n: usize)
    ensures
        n == count_setting_spec(
            match var {
                Some(v) => Some(v@),
                None => None,
            },
            default,
        ),
{
    match var {
        Some(v) => match number_field_exec(&text::chars_of(v)) {
            Some(n) => if n <= usize::MAX as u64 {
                n as usize
            } else {
                default
            },
            None => default,
        },
        None => default,
    }
}

/// The model id for a mode id: the id itself where one of `modes` has it.
pub open spec fn model_for_mode_spec(modes: Seq<ModeView>, id: Seq<char>) -> Option<Seq<char>> {
    if exists|i: int| 0 <= i < modes.len() && (#[trigger] modes[i]).0 == id {
        Some(id)
    } else {
        None
    }
}

/// The model id for a mode id, or `None` when none of `modes` has that id.
pub fn model_for_mode(modes: &Vec<ModelMode>, mode_id: &str) -> (r: Option<String>)
    ensures
        match model_for_mode_spec(modes_view(modes@), mode_id@) {
            Some(m) => r matches Some(x) && x@ == m,
            None => r is None,
        },
{
    let ghost mv = modes_view(modes@);
    let mut i: usize = 0;
    while i < modes.len()
        invariant
            0 <= i <= modes@.len(),
            mv == modes_view(modes@),
            forall|j: int| 0 <= j < i ==> mv[j].0 != mode_id@,
        decreases modes@.len() - i,
    {
        assert(mv[i as int].0 == modes@[i as int].id@);
        if text::str_eq(modes[i].id.as_str(), mode_id) {
            return Some(modes[i].id.clone());
        }
        i = i + 1;
    }
    None
}

/// The model a session starts with: the first mode's id.
pub open spec fn first_mode_id(modes: Seq<ModeView>) -> Seq<char> {
    if modes.len() > 0 {
        modes[0].0
    } else {
        default_model()
    }
}

/// Where the model endpoint is, the key for it and the model to ask.
pub struct LlmConfig {
    pub base_url: String,
    pub api_key: String,
    pub model: String,
}

/// The endpoint used when none is configured.
pub open spec fn default_base_url() -> Seq<char> {
    "https://ws-dh0kie08xivrnzho.cn-beijing.maas.aliyuncs.com/compatible-mode/v1"@
}

/// The model used when none is configured.
pub open spec fn default_model() -> Seq<char> {
    "qwen3.7-flash"@
}

/// A configured value: the given one where it is present and not empty.
pub open spec fn setting(v: Option<Seq<char>>) -> Option<Seq<char>> {
    match v {
        Some(s) => if s.len() > 0 { Some(s) } else { None },
        None => None,
    }
}

/// A key read from a file: the content trimmed, where that is not empty.
pub open spec fn file_key(content: Option<Seq<char>>) -> Option<Seq<char>> {
    match content {
        Some(c) => setting(Some(text::trim(c))),
        None => None,
    }
}

/// The API key: from the environment, else from the key file, else from
/// the legacy key file.
pub open spec fn api_key_spec(env: Option<Seq<char>>, file: Option<Seq<char>>, legacy: Option<Seq<char>>) -> Option<
    Seq<char>,
> {
    match setting(env) {
        Some(k) => Some(k),
        None => match file_key(file) {
            Some(k) => Some(k),
            None => file_key(legacy),
        },
    }
}

fn setting_exec(v: &Option<String>) -> (r: Option<String>)
    ensures
        crate::fsm::opt_view(r) == setting(crate::fsm::opt_view(*v)),
{
    match v {
        Some(s) => if text::chars_of(s.as_str()).len() > 0 {
            Some(s.clone())
        } else {
            None
        },
        None => None,
    }
}

fn file_key_exec(content: &Option<String>) -> (r: Option<String>)
    ensures
        crate::fsm::opt_view(r) == file_key(crate::fsm::opt_view(*content)),
{
    match content {
        Some(c) => {
            let cs = text::chars_of(c.as_str());
            let t = text::trim_chars(&cs);
            if t.len() > 0 {
                Some(text::string_of(&t))
            } else {
                None
            }
        },
        None => None,
    }
}

impl LlmConfig {
    /// The configuration from what was read: the key (see `api_key_spec`)
    /// and the endpoint and model from the environment where set and not
    /// empty, else the default endpoint and the first of `modes`; `None`
    /// when no key was found.
    pub fn from_sources(
        env_key: &Option<String>,
        key_file: &Option<String>,
        legacy_key_file: &Option<String>,
        env_base_url: &Option<String>,
        env_model: &Option<String>,
        modes: &Vec<ModelMode>,
    ) -> (r: Option<LlmConfig>)
        ensures
            match api_key_spec(
                crate::fsm::opt_view(*env_key),
                crate::fsm::opt_view(*key_file),
                crate::fsm::opt_view(*legacy_key_file),
            ) {
                None => r is None,
                Some(k) => r matches Some(c) && c.api_key@ == k && c.base_url@ == (match setting(
                    crate::fsm::opt_view(*env_base_url),
                ) {
                    Some(u) => u,
                    None => default_base_url(),
                }) && c.model@ == (match setting(crate::fsm::opt_view(*env_model)) {
                    Some(m) => m,
                    None => first_mode_id(modes_view(modes@)),
                }),
            },
    {
        let key = match setting_exec(env_key) {
            Some(k) => k,
            None => match file_key_exec(key_file) {
                Some(k) => k,
                None => match file_key_exec(legacy_key_file) {
                    Some(k) => k,
                    None => {
                        return None;
                    },
                },
            },
        };
        let base_url = match setting_exec(env_base_url) {
            Some(u) => u,
            None => text::owned("https://ws-dh0kie08xivrnzho.cn-beijing.maas.aliyuncs.com/compatible-mode/v1"),
        };
        let model = match setting_exec(env_model) {
            Some(m) => m,
            None => if modes.len() > 0 {
                assert(modes_view(modes@)[0].0 == modes@[0].id@);
                modes[0].id.clone()
            } else {
                text::owned("qwen3.7-flash")
            },
        };
        Some(LlmConfig { base_url, api_key: key, model })
    }

    /// Overrides the model (when the session picked a mode); an empty name
    /// keeps the configured one.
    pub fn with_model(self, model: &str) -> (r: Self)
        ensures
            r.base_url == self.base_url,
            r.api_key == self.api_key,
            r.model@ == (if model@.len() > 0 { model@ } else { self.model@ }),
    {
        let mut s = self;
        if text::chars_of(model).len() > 0 {
            s.model = text::owned(model);
        }
        s
    }
}

/// The home directory: `HOME` where it is set, else `/tmp`.
pub fn home_dir(home_var: Option<&str>) -> (h: String)
    ensures
        h@ == (match home_var {
            Some(v) => v@,
            None => "/tmp"@,
        }),
{
    match home_var {
        Some(v) => text::owned(v),
        None => text::owned("/tmp"),
    }
}

/// The key file: `NAIL_KEY_FILE` where it is set, else
/// `~/.config/nail-agent/api_key`.
pub fn nail_key_file(key_file_var: Option<&str>, home: &str) -> (f: String)
    ensures
        f@ == (match key_file_var {
            Some(v) => v@,
            None => crate::paths::join_path(
                crate::paths::join_path(crate::paths::join_path(home@, ".config"@), "nail-agent"@),
                "api_key"@,
            ),
        }),
{
    match key_file_var {
        Some(v) => text::owned(v),
        None => {
            let a = crate::paths::join_paths(home, ".config");
            let b = crate::paths::join_paths(a.as_str(), "nail-agent");
            crate::paths::join_paths(b.as_str(), "api_key")
        },
    }
}

/// The key file of earlier versions: `~/.config/zacp/api_key`.
pub fn legacy_key_file(home: &str) -> (f: String)
    ensures
        f@ == crate::paths::join_path(
            crate::paths::join_path(crate::paths::join_path(home@, ".config"@), "zacp"@),
            "api_key"@,
        ),
{
    let a = crate::paths::join_paths(home, ".config");
    let b = crate::paths::join_paths(a.as_str(), "zacp");
    crate::paths::join_paths(b.as_str(), "api_key")
}

/// The report when no API key was found; `key_file` is where one is looked for.
pub fn missing_key_message(key_file: &str) -> (m: String)
    ensures
        m@ == "没有找到 API Key：设置环境变量 NAIL_API_KEY，或把 key 写入 "@ + key_file@ + "（chmod 600）"@,
{
    let mut m = text::owned("没有找到 API Key：设置环境变量 NAIL_API_KEY，或把 key 写入 ");
    text::push_str(&mut m, key_file);
    text::push_str(&mut m, "（chmod 600）");
    m
}

/// The agent's endpoint settings, all required.
pub struct AgentConfig {
    pub base_url: String,
    pub api_key: String,
    pub model_name: String,
}

impl AgentConfig {
    /// The settings from the values of `BASE_URL`, `API_KEY` and
    /// `MODEL_NAME`; the first missing one is reported.
    pub fn from_vars(base_url: Option<String>, api_key: Option<String>, model_name: Option<String>) -> (r: Result<
        AgentConfig,
        String,
    >)
        ensures
            base_url is None ==> (r matches Err(m) && m@ == "missing BASE_URL environment variable"@),
            base_url is Some && api_key is None ==> (r matches Err(m) && m@ == "missing API_KEY environment variable"@),
            base_url is Some && api_key is Some && model_name is None ==> (r matches Err(m) && m@
                == "missing MODEL_NAME environment variable"@),
            r matches Ok(c) ==> base_url == Some(c.base_url) && api_key == Some(c.api_key) && model_name == Some(
                c.model_name,
            ),
            base_url is Some && api_key is Some && model_name is Some ==> r is Ok,
    {
        let base_url = match base_url {
            Some(v) => v,
            None => {
                return Err(text::owned("missing BASE_URL environment variable"));
            },
        };
        let api_key = match api_key {
            Some(v) => v,
            None => {
                return Err(text::owned("missing API_KEY environment variable"));
            },
        };
        let model_name = match model_name {
            Some(v) => v,
            None => {
                return Err(text::owned("missing MODEL_NAME environment variable"));
            },
        };
        Ok(AgentConfig { base_url, api_key, model_name })
    }
}

// ---------------------------------------------------------------------------
// Token usage
// ---------------------------------------------------------------------------

/// Token usage accumulated over a streamed turn.
#[derive(Debug, Clone, Copy, PartialEq, Eq, Structural)]
pub struct Usage {
    pub input: u64,
    pub output: u64,
}

impl Usage {
    /// No tokens used.
    pub fn zero() -> (u: Usage)
        ensures
            u.input == 0 && u.output == 0,
    {
        Usage { input: 0, output: 0 }
    }

    /// Input and output tokens together.
    pub fn total(self) -> (t: u64)
        requires
            self.input + self.output <= u64::MAX,
        ensures
            t == self.input + self.output,
    {
        self.input + self.output
    }

    /// Adds another report, side by side.
    pub fn add(&mut self, other: Usage)
        requires
            old(self).input + other.input <= u64::MAX,
            old(self).output + other.output <= u64::MAX,
        ensures
            final(self).input == old(self).input + other.input,
            final(self).output == old(self).output + other.output,
    {
        self.input = self.input + other.input;
        self.output = self.output + other.output;
    }
}

/// Adding reports adds their totals.
pub proof fn lemma_usage_total_adds(a: Usage, b: Usage)
    ensures
        (a.input + b.input) + (a.output + b.output) == (a.input + a.output) + (b.input + b.output),
{
}

// ---------------------------------------------------------------------------
// Tool calls assembled from fragments
// ---------------------------------------------------------------------------

/// A model-requested tool call with raw (unparsed) JSON arguments.
pub struct PendingToolCall {
    pub id: String,
    pub name: String,
    pub arguments: String,
}

/// Tool-call fragments gathered by index: slot `i` holds the id (once one
/// came) and the name and argument pieces of call `i`.
pub struct ToolCallSlots {
    pub ids: Vec<Option<String>>,
    pub names: Vec<String>,
    pub args: Vec<String>,
}

impl ToolCallSlots {
    /// The slots by value.
    pub open spec fn slots(&self) -> Seq<(Option<Seq<char>>, Seq<char>, Seq<char>)> {
        Seq::new(self.ids@.len(), |i: int| (crate::fsm::opt_view(self.ids@[i]), self.names@[i]@, self.args@[i]@))
    }

    /// The three vectors have one entry per slot.
    pub open spec fn wf(&self) -> bool {
        self.ids@.len() == self.names@.len() && self.ids@.len() == self.args@.len()
    }

    /// No fragment yet.
    pub fn new() -> (s: Self)
        ensures
            s.wf(),
            s.slots().len() == 0,
    {
        ToolCallSlots { ids: Vec::new(), names: Vec::new(), args: Vec::new() }
    }

    /// Takes a fragment of call `index`: missing slots up to it are added
    /// empty; a new id replaces the old one, name and argument pieces are
    /// appended.
    pub fn add(&mut self, index: usize, id: Option<String>, name: Option<String>, arguments: Option<String>)
        requires
            old(self).wf(),
            index < usize::MAX,
        ensures
            final(self).wf(),
            final(self).slots() == add_fragment(old(self).slots(), index as int, crate::fsm::opt_view(id), crate::fsm::or_empty(name), crate::fsm::or_empty(arguments)),
    {
        let ghost before = self.slots();
        while self.ids.len() <= index
            invariant
                self.wf(),
                index < usize::MAX,
                before.len() <= self.slots().len(),
                self.slots().len() <= if before.len() > index + 1 { before.len() } else { (index + 1) as nat },
                self.slots().subrange(0, before.len() as int) == before,
                forall|j: int| before.len() <= j < self.slots().len() ==> #[trigger] self.slots()[j] == (
                    None::<Seq<char>>,
                    Seq::<char>::empty(),
                    Seq::<char>::empty(),
                ),
            decreases index + 1 - self.ids@.len(),
        {
            let ghost prev = self.slots();
            self.ids.push(None);
            self.names.push(String::new());
            self.args.push(String::new());
            proof {
                let k = prev.len() as int;
                assert(self.slots()[k] == (None::<Seq<char>>, Seq::<char>::empty(), Seq::<char>::empty()));
                assert forall|j: int| 0 <= j < prev.len() implies #[trigger] self.slots()[j] == prev[j] by {}
                assert forall|j: int| before.len() <= j < self.slots().len() implies #[trigger] self.slots()[j] == (
                    None::<Seq<char>>,
                    Seq::<char>::empty(),
                    Seq::<char>::empty(),
                ) by {
                    if j < k {
                        assert(self.slots()[j] == prev[j]);
                    }
                }
            }
            assert(self.slots().subrange(0, before.len() as int) =~= before);
        }
        let ghost grown = self.slots();
        assert(grown =~= pad_to(before, index as int + 1));
        if id.is_some() {
            self.ids.set(index, id);
        }
        match name {
            Some(n) => {
                let mut cur = self.names[index].clone();
                text::push_str(&mut cur, n.as_str());
                self.names.set(index, cur);
            },
            None => {},
        }
        match arguments {
            Some(a) => {
                let mut cur = self.args[index].clone();
                text::push_str(&mut cur, a.as_str());
                self.args.set(index, cur);
            },
            None => {},
        }
        assert(self.slots() =~= add_fragment(before, index as int, crate::fsm::opt_view(id), crate::fsm::or_empty(name), crate::fsm::or_empty(arguments)));
    }

    /// The calls that received an id and a non-empty name, in slot order.
    pub fn finish(&self) -> (calls: Vec<PendingToolCall>)
        requires
            self.wf(),
        ensures
            calls@.map_values(|c: PendingToolCall| (c.id@, c.name@, c.arguments@)) == complete_calls(self.slots()),
    {
        let ghost sv = self.slots();
        let mut calls: Vec<PendingToolCall> = Vec::new();
        let mut i: usize = 0;
        while i < self.ids.len()
            invariant
                self.wf(),
                sv == self.slots(),
                0 <= i <= self.ids@.len(),
                calls@.map_values(|c: PendingToolCall| (c.id@, c.name@, c.arguments@)) == complete_calls(
                    sv.subrange(0, i as int),
                ),
            decreases self.ids@.len() - i,
        {
            proof {
                let sub = sv.subrange(0, i + 1);
                assert(sub.drop_last() =~= sv.subrange(0, i as int));
            }
            match &self.ids[i] {
                Some(id) => {
                    if text::chars_of(self.names[i].as_str()).len() > 0 {
                        let ghost old_calls = calls@;
                        let c = PendingToolCall {
                            id: id.clone(),
                            name: self.names[i].clone(),
                            arguments: self.args[i].clone(),
                        };
                        calls.push(c);
                        assert(calls@.map_values(|c: PendingToolCall| (c.id@, c.name@, c.arguments@)) =~= old_calls.map_values(
                            |c: PendingToolCall| (c.id@, c.name@, c.arguments@),
                        ).push((c.id@, c.name@, c.arguments@)));
                    }
                },
                None => {},
            }
            i = i + 1;
        }
        assert(sv.subrange(0, sv.len() as int) =~= sv);
        calls
    }
}

/// `s` extended with empty slots up to length `n`.
pub open spec fn pad_to(s: Seq<(Option<Seq<char>>, Seq<char>, Seq<char>)>, n: int) -> Seq<
    (Option<Seq<char>>, Seq<char>, Seq<char>),
> {
    if s.len() >= n {
        s
    } else {
        s + Seq::new((n - s.len()) as nat, |i: int| (None::<Seq<char>>, Seq::<char>::empty(), Seq::<char>::empty()))
    }
}

/// The slots after a fragment of call `index` (see `ToolCallSlots::add`).
pub open spec fn add_fragment(
    s: Seq<(Option<Seq<char>>, Seq<char>, Seq<char>)>,
    index: int,
    id: Option<Seq<char>>,
    name: Seq<char>,
    args: Seq<char>,
) -> Seq<(Option<Seq<char>>, Seq<char>, Seq<char>)> {
    let p = pad_to(s, index + 1);
    let c = p[index];
    p.update(index, (if id is Some { id } else { c.0 }, c.1 + name, c.2 + args))
}

/// The complete calls among the slots: id present and name not empty.
pub open spec fn complete_calls(s: Seq<(Option<Seq<char>>, Seq<char>, Seq<char>)>) -> Seq<(Seq<char>, Seq<char>, Seq<char>)>
    decreases s.len(),
{
    if s.len() == 0 {
        Seq::empty()
    } else {
        let prev = complete_calls(s.drop_last());
        match s.last().0 {
            Some(id) => if s.last().1.len() > 0 {
                prev.push((id, s.last().1, s.last().2))
            } else {
                prev
            },
            None => prev,
        }
    }
}

} // verus!
