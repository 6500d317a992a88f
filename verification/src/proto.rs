//! Decisions of the ACP handlers and of a prompt turn: the prompt's text,
//! which transcript messages are replayed, how streamed text is cut into
//! chunks, the model/tool loop, and how a turn starts and ends on the
//! session registry.
use vstd::prelude::*;
use crate::text;
use crate::llm;
use crate::sessions::{self, Sessions, SessionState};

verus! {

// ---------------------------------------------------------------------------
// Prompt and replay text
// ---------------------------------------------------------------------------

/// A content block of a prompt, as far as its text goes.
pub enum PromptBlock {
    Text(String),
    /// A resource link, by its URI.
    ResourceLink(String),
    /// Any other block; it has no text.
    Other,
}

/// The text a block contributes, if any.
pub open spec fn block_text(b: PromptBlock) -> Option<Seq<char>> {
    match b {
        PromptBlock::Text(t) => Some(t@),
        PromptBlock::ResourceLink(u) => Some(u@),
        PromptBlock::Other => None,
    }
}

/// The printable text of a prompt: each text (or link URI) appended, with
/// a newline before it where something was already written.
pub open spec fn prompt_text_spec(blocks: Seq<PromptBlock>) -> Seq<char>
    decreases blocks.len(),
{
    if blocks.len() == 0 {
        Seq::empty()
    } else {
        let out = prompt_text_spec(blocks.drop_last());
        match block_text(blocks.last()) {
            Some(t) => if out.len() > 0 { out + seq!['\n'] + t } else { out + t },
            None => out,
        }
    }
}

/// How the text of a prompt grows by one block (an empty prompt has no
/// text): a block that carries text
/// (a text, or a link's URI) adds a newline and its text where something
/// was already written, and just its text otherwise, whatever kind the
/// block is; a block without text adds nothing.
pub proof fn lemma_prompt_text_grows_by_block(blocks: Seq<PromptBlock>, b: PromptBlock)
    ensures
        prompt_text_spec(Seq::<PromptBlock>::empty()).len() == 0,
        ({
            let before = prompt_text_spec(blocks);
            let after = prompt_text_spec(blocks.push(b));
            match b {
                PromptBlock::Text(t) => after == (if before.len() > 0 { before + "\n"@ + t@ } else { t@ }),
                PromptBlock::ResourceLink(u) => after == (if before.len() > 0 { before + "\n"@ + u@ } else { u@ }),
                PromptBlock::Other => after == before,
            }
        }),
{
    let ext = blocks.push(b);
    assert(ext.drop_last() =~= blocks);
    assert(ext.last() == b);
    let before = prompt_text_spec(blocks);
    reveal_strlit("\n");
    assert("\n"@ =~= seq!['\n']);
    if before.len() == 0 {
        assert(before =~= Seq::<char>::empty());
        match b {
            PromptBlock::Text(t) => {
                assert(before + t@ =~= t@);
            },
            PromptBlock::ResourceLink(u) => {
                assert(before + u@ =~= u@);
            },
            PromptBlock::Other => {},
        }
    }
}

/// Two blocks that both carry text are joined with a newline when the first
/// text is not empty.
pub proof fn lemma_two_texts_joined(a: PromptBlock, b: PromptBlock)
    requires
        block_text(a) is Some,
        block_text(b) is Some,
    ensures
        prompt_text_spec(seq![a, b]) == (if block_text(a)->0.len() > 0 {
            block_text(a)->0 + "\n"@ + block_text(b)->0
        } else {
            block_text(b)->0
        }),
{
    lemma_prompt_text_grows_by_block(Seq::empty(), a);
    assert(Seq::<PromptBlock>::empty().push(a) =~= seq![a]);
    assert(prompt_text_spec(Seq::<PromptBlock>::empty()) =~= Seq::<char>::empty());
    lemma_prompt_text_grows_by_block(seq![a], b);
    assert(seq![a].push(b) =~= seq![a, b]);
}

/// The printable text of a prompt (see `prompt_text_spec`).
pub fn prompt_text(prompt: &Vec<PromptBlock>) -> (r: String)
    ensures
        r@ == prompt_text_spec(prompt@),
{
    let mut out = String::new();
    let mut i: usize = 0;
    while i < prompt.len()
        invariant
            0 <= i <= prompt@.len(),
            out@ == prompt_text_spec(prompt@.subrange(0, i as int)),
        decreases prompt@.len() - i,
    {
        assert(prompt@.subrange(0, i + 1).drop_last() =~= prompt@.subrange(0, i as int));
        assert(prompt@.subrange(0, i + 1).last() == prompt@[i as int]);
        let t: Option<&String> = match &prompt[i] {
            PromptBlock::Text(t) => Some(t),
            PromptBlock::ResourceLink(u) => Some(u),
            PromptBlock::Other => None,
        };
        match t {
            Some(t) => {
                if text::chars_of(out.as_str()).len() > 0 {
                    text::push_char(&mut out, '\n');
                }
                text::push_str(&mut out, t.as_str());
            },
            None => {},
        }
        i = i + 1;
    }
    assert(prompt@.subrange(0, prompt@.len() as int) =~= prompt@);
    out
}

/// A transcript message, as far as a replay goes: the text parts of a user
/// message, or of an assistant message with content; others replay nothing.
pub enum ReplayMessage {
    User(Vec<String>),
    Assistant(Option<Vec<String>>),
    Other,
}

/// What a message replays: who spoke (`true` for the user) and its text
/// parts joined by newlines, where that text is not empty.
pub open spec fn message_text_spec(m: ReplayMessage) -> Option<(bool, Seq<char>)> {
    match m {
        ReplayMessage::User(parts) => {
            let t = text::join(text::views(parts@), "\n"@);
            if t.len() > 0 { Some((true, t)) } else { None }
        },
        ReplayMessage::Assistant(Some(parts)) => {
            let t = text::join(text::views(parts@), "\n"@);
            if t.len() > 0 { Some((false, t)) } else { None }
        },
        _ => None,
    }
}

/// What a message replays (see `message_text_spec`).
pub fn message_text(m: &ReplayMessage) -> (r: Option<(bool, String)>)
    ensures
        match message_text_spec(*m) {
            Some((u, t)) => r matches Some((u2, t2)) && u2 == u && t2@ == t,
            None => r is None,
        },
{
    match m {
        ReplayMessage::User(parts) => {
            let t = text::join_strings(parts, "\n");
            if text::chars_of(t.as_str()).len() > 0 {
                Some((true, t))
            } else {
                None
            }
        },
        ReplayMessage::Assistant(Some(parts)) => {
            let t = text::join_strings(parts, "\n");
            if text::chars_of(t.as_str()).len() > 0 {
                Some((false, t))
            } else {
                None
            }
        },
        _ => None,
    }
}

/// What a replay of the transcript shows, in order.
pub open spec fn replay_spec(ms: Seq<ReplayMessage>) -> Seq<(bool, Seq<char>)>
    decreases ms.len(),
{
    if ms.len() == 0 {
        Seq::empty()
    } else {
        let rest = replay_spec(ms.drop_last());
        match message_text_spec(ms.last()) {
            Some(x) => rest.push(x),
            None => rest,
        }
    }
}

/// The user and assistant texts of a transcript to replay to the client;
/// tool traffic and empty messages are left out.
pub fn replay(transcript: &Vec<ReplayMessage>) -> (r: Vec<(bool, String)>)
    ensures
        r@.map_values(|x: (bool, String)| (x.0, x.1@)) == replay_spec(transcript@),
{
    let mut r: Vec<(bool, String)> = Vec::new();
    let mut i: usize = 0;
    while i < transcript.len()
        invariant
            0 <= i <= transcript@.len(),
            r@.map_values(|x: (bool, String)| (x.0, x.1@)) == replay_spec(transcript@.subrange(0, i as int)),
        decreases transcript@.len() - i,
    {
        assert(transcript@.subrange(0, i + 1).drop_last() =~= transcript@.subrange(0, i as int));
        assert(transcript@.subrange(0, i + 1).last() == transcript@[i as int]);
        match message_text(&transcript[i]) {
            Some(x) => {
                let ghost before = r@;
                r.push(x);
                assert(r@.map_values(|x: (bool, String)| (x.0, x.1@)) =~= before.map_values(
                    |x: (bool, String)| (x.0, x.1@),
                ).push((r@.last().0, r@.last().1@)));
            },
            None => {},
        }
        i = i + 1;
    }
    assert(transcript@.subrange(0, transcript@.len() as int) =~= transcript@);
    r
}

// ---------------------------------------------------------------------------
// Streaming text in chunks
// ---------------------------------------------------------------------------

/// A chunk goes out once it holds this many bytes, or ends a line.
pub const CHUNK_BYTES: usize = 24;

/// The chunks a text is streamed in, given the chunk `buf` under way:
/// characters are added one by one, and the chunk goes out when it reaches
/// `CHUNK_BYTES` bytes or the character was a newline; what is left at the
/// end goes out last.
pub open spec fn chunks_from(buf: Seq<char>, rest: Seq<char>) -> Seq<Seq<char>>
    decreases rest.len(),
{
    if rest.len() == 0 {
        if buf.len() > 0 { seq![buf] } else { Seq::empty() }
    } else {
        let b = buf.push(rest[0]);
        if crate::text_editing::byte_len(b) >= CHUNK_BYTES || rest[0] == '\n' {
            seq![b] + chunks_from(Seq::empty(), rest.drop_first())
        } else {
            chunks_from(b, rest.drop_first())
        }
    }
}

/// The chunks `text` is streamed in (see `chunks_from`).
pub fn stream_chunks(text: &str) -> (r: Vec<String>)
    ensures
        text::views(r@) == chunks_from(Seq::empty(), text@),
{
    let cs = text::chars_of(text);
    let mut out: Vec<String> = Vec::new();
    let mut buf: Vec<char> = Vec::new();
    let mut used: usize = 0;
    let mut i: usize = 0;
    assert(cs@.skip(0) =~= cs@);
    while i < cs.len()
        invariant
            0 <= i <= cs@.len(),
            cs@ == text@,
            used == crate::text_editing::byte_len(buf@),
            used < CHUNK_BYTES,
            text::views(out@) + chunks_from(buf@, cs@.skip(i as int)) == chunks_from(Seq::empty(), text@),
        decreases cs@.len() - i,
    {
        let c = cs[i];
        let ghost rest = cs@.skip(i as int);
        assert(rest[0] == c);
        assert(rest.drop_first() =~= cs@.skip(i + 1));
        let w: usize = if (c as u32) < 0x80 {
            1
        } else if (c as u32) < 0x800 {
            2
        } else if (c as u32) < 0x10000 {
            3
        } else {
            4
        };
        let ghost old_buf = buf@;
        buf.push(c);
        proof {
            crate::text_editing::lemma_byte_len_concat(old_buf, seq![c]);
            assert(old_buf + seq![c] =~= buf@);
            assert(crate::text_editing::byte_len(seq![c]) == crate::text_editing::utf8_width(c)) by {
                assert(seq![c].drop_last() =~= Seq::<char>::empty());
                assert(seq![c].last() == c);
                assert(crate::text_editing::byte_len(Seq::<char>::empty()) == 0);
            }
        }
        used = used + w;
        if used >= CHUNK_BYTES || c == '\n' {
            let ghost before = out@;
            out.push(text::string_of(&buf));
            proof {
                assert(text::views(out@) =~= text::views(before).push(buf@));
                assert(text::views(out@) + chunks_from(Seq::empty(), cs@.skip(i + 1)) =~= text::views(before) + (
                seq![buf@] + chunks_from(Seq::empty(), cs@.skip(i + 1))));
            }
            buf = Vec::new();
            used = 0;
        }
        i = i + 1;
    }
    if buf.len() > 0 {
        let ghost before = out@;
        out.push(text::string_of(&buf));
        assert(text::views(out@) =~= text::views(before).push(buf@));
    } else {
        assert(text::views(out@) + Seq::<Seq<char>>::empty() =~= text::views(out@));
    }
    out
}

// ---------------------------------------------------------------------------
// The model/tool loop of a turn
// ---------------------------------------------------------------------------

/// Most model/tool rounds in one prompt turn where nothing else is
/// configured.
pub const MAX_TOOL_TURNS: usize = 8;

/// Why a turn stopped.
#[derive(Debug, Clone, Copy, PartialEq, Eq, Structural)]
pub enum StopKind {
    EndTurn,
    Cancelled,
}

/// How one model round came out.
pub enum RoundResult {
    /// The answer is final; `reply` is the streamed text.
    TextDone { usage: llm::Usage, reply: String },
    Cancelled,
    /// The round failed; the detail is shown to the user.
    Error(String),
    /// Tools were requested, by name.
    ToolCalls { usage: llm::Usage, names: Vec<String> },
}

/// Which toolbox a requested tool belongs to.
#[derive(Debug, Clone, Copy, PartialEq, Eq, Structural)]
pub enum CallRoute {
    Local,
    Mcp,
}

/// The built-in tools go to the local toolbox, all others to MCP.
pub open spec fn route_spec(name: Seq<char>) -> CallRoute {
    if name == "run"@ || name == "read"@ || name == "write"@ {
        CallRoute::Local
    } else {
        CallRoute::Mcp
    }
}

/// Where a requested tool is executed (see `route_spec`).
pub fn route_call(name: &str) -> (r: CallRoute)
    ensures
        r == route_spec(name@),
{
    if text::str_eq(name, "run") || text::str_eq(name, "read") || text::str_eq(name, "write") {
        CallRoute::Local
    } else {
        CallRoute::Mcp
    }
}

/// What the turn does next.
pub enum ChatAction {
    /// Stop; the assistant's reply is added to the transcript where there
    /// is one.
    Finish { stop: StopKind, reply: Option<String> },
    /// Show the text; the turn then ends, cancelled where it could not be
    /// shown in full.
    Report(String),
    /// Run the requested tools, each in its toolbox, in order.
    RunTools(Vec<CallRoute>),
    /// Ask the model again with the tool results.
    NextRound,
}

/// The notice when the round limit ends a turn.
pub open spec fn round_limit_notice() -> Seq<char> {
    "（工具调用轮数已达上限，本轮结束）"@
}

/// The state of the model/tool loop of one turn: rounds done, tokens used
/// so far, and the most rounds the turn may take.
pub struct ChatLoop {
    pub rounds: usize,
    pub usage: llm::Usage,
    pub max_rounds: usize,
}

/// The usage after a round's report is added.
pub open spec fn usage_after(u: llm::Usage, r: RoundResult) -> llm::Usage {
    match r {
        RoundResult::TextDone { usage, .. } => llm::Usage { input: (u.input + usage.input) as u64, output: (u.output + usage.output) as u64 },
        RoundResult::ToolCalls { usage, .. } => llm::Usage { input: (u.input + usage.input) as u64, output: (u.output + usage.output) as u64 },
        _ => u,
    }
}

/// Whether a round's usage can be added without overflow.
pub open spec fn usage_fits(u: llm::Usage, r: RoundResult) -> bool {
    match r {
        RoundResult::TextDone { usage, .. } => u.input + usage.input <= u64::MAX && u.output + usage.output <= u64::MAX,
        RoundResult::ToolCalls { usage, .. } => u.input + usage.input <= u64::MAX && u.output + usage.output <= u64::MAX,
        _ => true,
    }
}

impl ChatLoop {
    /// A turn before its first round, allowed `MAX_TOOL_TURNS` rounds.
    pub fn new() -> (c: Self)
        ensures
            c.rounds == 0,
            c.usage.input == 0 && c.usage.output == 0,
            c.max_rounds == MAX_TOOL_TURNS,
    {
        Self::with_limit(MAX_TOOL_TURNS)
    }

    /// A turn before its first round, allowed `max_rounds` rounds.
    pub fn with_limit(max_rounds: usize) -> (c: Self)
        ensures
            c.rounds == 0,
            c.usage.input == 0 && c.usage.output == 0,
            c.max_rounds == max_rounds,
    {
        ChatLoop { rounds: 0, usage: llm::Usage::zero(), max_rounds }
    }

    /// Whether another round may start.
    pub fn may_ask(&self) -> (b: bool)
        ensures
            b == (self.rounds < self.max_rounds),
    {
        self.rounds < self.max_rounds
    }

    /// The action after a model round: a final answer ends the turn (its
    /// reply kept where not empty), a cancellation ends it cancelled, an
    /// error is shown, and requested tools are run. The round's usage is
    /// counted.
    pub fn on_round(&mut self, result: RoundResult) -> (a: ChatAction)
        requires
            old(self).rounds < old(self).max_rounds,
            usage_fits(old(self).usage, result),
        ensures
            final(self).rounds == old(self).rounds + 1,
            final(self).max_rounds == old(self).max_rounds,
            final(self).usage == usage_after(old(self).usage, result),
            match result {
                RoundResult::TextDone { reply, .. } => a matches ChatAction::Finish { stop, reply: r } && stop
                    == StopKind::EndTurn && (if reply@.len() > 0 {
                    r matches Some(x) && x@ == reply@
                } else {
                    r is None
                }),
                RoundResult::Cancelled => a matches ChatAction::Finish { stop, reply: r } && stop == StopKind::Cancelled
                    && r is None,
                RoundResult::Error(d) => a matches ChatAction::Report(t) && t@ == d@,
                RoundResult::ToolCalls { names, .. } => a matches ChatAction::RunTools(routes) && routes@.len()
                    == names@.len() && forall|i: int| 0 <= i < names@.len() ==> routes@[i] == route_spec(
                    (#[trigger] names@[i])@,
                ),
            },
    {
        self.rounds = self.rounds + 1;
        match result {
            RoundResult::TextDone { usage, reply } => {
                self.usage.add(usage);
                let r = if text::chars_of(reply.as_str()).len() > 0 { Some(reply) } else { None };
                ChatAction::Finish { stop: StopKind::EndTurn, reply: r }
            },
            RoundResult::Cancelled => ChatAction::Finish { stop: StopKind::Cancelled, reply: None },
            RoundResult::Error(d) => ChatAction::Report(d),
            RoundResult::ToolCalls { usage, names } => {
                self.usage.add(usage);
                let mut routes: Vec<CallRoute> = Vec::new();
                let mut i: usize = 0;
                while i < names.len()
                    invariant
                        0 <= i <= names@.len(),
                        routes@.len() == i,
                        forall|k: int| 0 <= k < i ==> routes@[k] == route_spec((#[trigger] names@[k])@),
                    decreases names@.len() - i,
                {
                    routes.push(route_call(names[i].as_str()));
                    i = i + 1;
                }
                ChatAction::RunTools(routes)
            },
        }
    }

    /// The action once the tools of a round ran: a cancelled tool ends the
    /// turn cancelled; else the model is asked again, unless the round
    /// limit is reached, which is reported.
    pub fn after_tools(&self, cancelled: bool) -> (a: ChatAction)
        ensures
            cancelled ==> (a matches ChatAction::Finish { stop, reply } && stop == StopKind::Cancelled && reply is None),
            !cancelled && self.rounds < self.max_rounds ==> a is NextRound,
            !cancelled && self.rounds >= self.max_rounds ==> (a matches ChatAction::Report(t) && t@ == round_limit_notice()),
    {
        if cancelled {
            ChatAction::Finish { stop: StopKind::Cancelled, reply: None }
        } else if self.rounds < self.max_rounds {
            ChatAction::NextRound
        } else {
            ChatAction::Report(text::owned("（工具调用轮数已达上限，本轮结束）"))
        }
    }
}

/// How a turn ends after a report: normally where it was shown in full,
/// cancelled otherwise.
pub fn stop_after_report(shown: bool) -> (s: StopKind)
    ensures
        s == (if shown { StopKind::EndTurn } else { StopKind::Cancelled }),
{
    if shown {
        StopKind::EndTurn
    } else {
        StopKind::Cancelled
    }
}

/// The state a session is left in by how its turn stopped.
pub open spec fn state_after(stop: StopKind) -> SessionState {
    match stop {
        StopKind::EndTurn => SessionState::Completed,
        StopKind::Cancelled => SessionState::Cancelled,
    }
}

// ---------------------------------------------------------------------------
// Handlers on the session registry
// ---------------------------------------------------------------------------

/// The error for a request about a session that does not exist.
pub open spec fn unknown_session(key: Seq<char>) -> Seq<char> {
    "unknown session "@ + key
}

fn unknown_session_message(key: &str) -> (m: String)
    ensures
        m@ == unknown_session(key@),
{
    let mut m = text::owned("unknown session ");
    text::push_str(&mut m, key);
    m
}

/// `authenticate`: only the `api-key` method is known.
pub fn check_auth_method(method: &str) -> (r: Result<(), String>)
    ensures
        method@ == "api-key"@ ==> r is Ok,
        method@ != "api-key"@ ==> (r matches Err(e) && e@ == "unknown auth method "@ + method@),
{
    if text::str_eq(method, "api-key") {
        Ok(())
    } else {
        let mut m = text::owned("unknown auth method ");
        text::push_str(&mut m, method);
        Err(m)
    }
}

/// `session/prompt` only runs for a known session.
pub fn check_prompt<M: Clone, S: Clone>(reg: &Sessions<M, S>, key: &str) -> (r: Result<(), String>)
    requires
        reg.wf(),
    ensures
        reg.has(key@) ==> r is Ok,
        !reg.has(key@) ==> (r matches Err(e) && e@ == unknown_session(key@)),
{
    if reg.session_exists(key) {
        Ok(())
    } else {
        Err(unknown_session_message(key))
    }
}

/// `session/set_mode`: an unknown session, or a mode none of `modes` has,
/// is refused and nothing changes; else the session switches to the mode.
pub fn handle_set_mode<M: Clone, S: Clone>(
    reg: &mut Sessions<M, S>,
    modes: &Vec<llm::ModelMode>,
    key: &str,
    mode: &str,
    now: u64,
) -> (r: Result<(), String>)
    requires
        old(reg).wf(),
    ensures
        final(reg).wf(),
        !old(reg).has(key@) ==> (r matches Err(e) && e@ == unknown_session(key@) && *final(reg) == *old(reg)),
        old(reg).has(key@) && llm::model_for_mode_spec(llm::modes_view(modes@), mode@) is None ==> (r matches Err(e) && e@ == "unknown mode "@
            + mode@ && *final(reg) == *old(reg)),
        old(reg).has(key@) && llm::model_for_mode_spec(llm::modes_view(modes@), mode@) is Some ==> r is Ok && final(reg).has(key@)
            && final(reg).get(key@).mode@ == mode@ && final(reg).get(key@).last_activity_at == now
            && sessions::kept(old(reg).get(key@), final(reg).get(key@), false, true, false, false, false, false, true, false)
            && final(reg).others_kept(&*old(reg), key@),
{
    if !reg.session_exists(key) {
        return Err(unknown_session_message(key));
    }
    if llm::model_for_mode(modes, mode).is_none() {
        let mut m = text::owned("unknown mode ");
        text::push_str(&mut m, mode);
        return Err(m);
    }
    reg.set_mode(key, mode, now);
    Ok(())
}

/// `session/load` and `session/resume`: the session is brought back (from
/// its record where it is not live) and takes the client's MCP servers;
/// an unknown session is refused and nothing changes.
pub fn handle_resume<M: Clone, S: Clone>(
    reg: &mut Sessions<M, S>,
    key: &str,
    stored: Option<sessions::StoredSession<M>>,
    servers: Vec<S>,
    now: u64,
) -> (r: Result<(), String>)
    requires
        old(reg).wf(),
    ensures
        final(reg).wf(),
        final(reg).next_id == old(reg).next_id,
        (r is Ok) == (old(reg).has(key@) || stored is Some),
        r matches Err(e) ==> e@ == unknown_session(key@) && *final(reg) == *old(reg),
        r is Ok ==> final(reg).has(key@) && final(reg).get(key@).mcp_servers == servers,
        r is Ok && old(reg).has(key@) ==> sessions::kept(old(reg).get(key@), final(reg).get(key@), false, false, false, true, false, false, false, false),
        final(reg).others_kept(&*old(reg), key@),
{
    let ghost before = *reg;
    if !reg.restore(key, stored, now) {
        return Err(unknown_session_message(key));
    }
    let ghost mid = *reg;
    reg.set_mcp_servers(key, servers);
    proof {
        assert forall|k: Seq<char>| k != key@ implies (#[trigger] reg.has(k) <==> before.has(k)) by {
            assert(mid.has(k) <==> before.has(k));
            assert(reg.has(k) <==> mid.has(k));
        }
        assert forall|k: Seq<char>| k != key@ && before.has(k) implies #[trigger] reg.get(k) == before.get(k) by {
            assert(mid.has(k));
            assert(mid.get(k) == before.get(k));
        }
    }
    Ok(())
}

/// What a turn starts from: the session is marked `Active`, and the
/// model (its mode, else the default) and its transcript are handed out.
pub fn begin_turn<M: Clone, S: Clone>(reg: &mut Sessions<M, S>, key: &str, now: u64) -> (r: Option<(String, Vec<M>)>)
    requires
        old(reg).wf(),
    ensures
        final(reg).wf(),
        final(reg).next_id == old(reg).next_id,
        !old(reg).has(key@) ==> r is None && *final(reg) == *old(reg),
        old(reg).has(key@) ==> (final(reg).has(key@) && final(reg).get(key@).state == SessionState::Active
            && final(reg).get(key@).last_activity_at == now
            && sessions::kept(old(reg).get(key@), final(reg).get(key@), true, false, false, false, false, false, true, false)
            && (r matches Some((m, t)) && m@ == old(reg).get(key@).mode@
            && crate::fsm::vec_cloned(old(reg).get(key@).transcript@, t@))),
        final(reg).others_kept(&*old(reg), key@),
{
    if !reg.session_exists(key) {
        return None;
    }
    let model = match reg.mode_of(key) {
        Some(m) => m,
        None => text::owned(reg.default_mode.as_str()),
    };
    let transcript = match reg.transcript_of(key) {
        Some(t) => t,
        None => Vec::new(),
    };
    reg.set_state(key, SessionState::Active, now);
    Some((model, transcript))
}

/// How a turn ends: the transcript is saved (capped), the state set by how
/// it stopped, and the turn counted; the record to persist is handed out.
pub fn end_turn<M: Clone, S: Clone>(
    reg: &mut Sessions<M, S>,
    key: &str,
    transcript: Vec<M>,
    stop: StopKind,
    now: u64,
) -> (r: Option<sessions::StoredSession<M>>)
    requires
        old(reg).wf(),
        old(reg).has(key@) ==> old(reg).get(key@).turn_count < u32::MAX,
    ensures
        final(reg).wf(),
        final(reg).next_id == old(reg).next_id,
        !old(reg).has(key@) ==> r is None && *final(reg) == *old(reg),
        old(reg).has(key@) ==> final(reg).has(key@) && r is Some
            && crate::fsm::vec_cloned(sessions::capped(transcript@, old(reg).max_transcript), final(reg).get(key@).transcript@)
            && r->0.transcript@ == sessions::capped(transcript@, old(reg).max_transcript)
            && final(reg).get(key@).state == state_after(stop)
            && final(reg).get(key@).turn_count == old(reg).get(key@).turn_count + 1
            && final(reg).get(key@).last_activity_at == now
            && sessions::kept(old(reg).get(key@), final(reg).get(key@), true, false, true, false, false, true, true, false),
        final(reg).others_kept(&*old(reg), key@),
{
    let ghost r0 = *reg;
    let stored = reg.save_transcript(key, transcript, now);
    let ghost r1 = *reg;
    let state = match stop {
        StopKind::EndTurn => SessionState::Completed,
        StopKind::Cancelled => SessionState::Cancelled,
    };
    reg.set_state(key, state, now);
    let ghost r2 = *reg;
    reg.bump_turn(key, now);
    proof {
        assert forall|k: Seq<char>| k != key@ implies (#[trigger] reg.has(k) <==> r0.has(k)) by {
            assert(r1.has(k) <==> r0.has(k));
            assert(r2.has(k) <==> r1.has(k));
            assert(reg.has(k) <==> r2.has(k));
        }
        assert forall|k: Seq<char>| k != key@ && r0.has(k) implies #[trigger] reg.get(k) == r0.get(k) by {
            assert(r1.has(k) && r1.get(k) == r0.get(k));
            assert(r2.has(k) && r2.get(k) == r1.get(k));
        }
    }
    stored
}

} // verus!
