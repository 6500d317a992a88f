//! The session registry: lifecycle state and live data of every session.
//!
//! A session is `Created` by `session/new`, `Active` while a turn runs, and
//! ends the turn `Completed`, `Cancelled` or `Failed`. Transcript messages
//! (`M`) and client-forwarded MCP servers (`S`) are carried untouched. The
//! clock, persistence and cancellation channels belong to the caller: the
//! registry takes the current time, and hands back what is to be stored.
use vstd::prelude::*;
use crate::text;

verus! {

/// Most messages kept per transcript where nothing else is configured;
/// older ones are dropped.
pub const MAX_TRANSCRIPT: usize = 100;

/// Lifecycle states of one session.
#[derive(Debug, Clone, Copy, PartialEq, Eq, Structural)]
pub enum SessionState {
    /// Created, no turn has run yet.
    Created,
    /// A prompt turn is running.
    Active,
    /// The last turn finished.
    Completed,
    /// The last turn was cancelled.
    Cancelled,
    /// The last turn failed.
    Failed,
}

impl Default for SessionState {
    fn default() -> (s: Self)
        ensures
            s == SessionState::Created,
    {
        SessionState::Created
    }
}

/// Live data of one session.
pub struct Session<M, S> {
    pub state: SessionState,
    /// Working directory; tools resolve against it.
    pub cwd: String,
    /// Active mode id (the model id).
    pub mode: String,
    /// Conversation history, sent back on every turn.
    pub transcript: Vec<M>,
    /// MCP servers forwarded by the client.
    pub mcp_servers: Vec<S>,
    /// Tools approved with "allow always" in this session (no repeats).
    pub always_allowed: Vec<String>,
    pub turn_count: u32,
    pub last_activity_at: u64,
    /// Tokens used by the session's turns so far.
    pub usage: crate::llm::Usage,
}

/// The persisted shape of one session.
pub struct StoredSession<M> {
    pub cwd: String,
    pub mode: String,
    pub transcript: Vec<M>,
    pub always_allowed: Vec<String>,
}

/// All live sessions by id, the number the next created session gets, the
/// mode a new session starts in and the most messages a saved transcript
/// keeps.
pub struct Sessions<M, S> {
    pub ids: Vec<String>,
    pub sessions: Vec<Session<M, S>>,
    pub next_id: u64,
    pub default_mode: String,
    pub max_transcript: usize,
}

/// Which fields of a session an operation may change; all others are kept.
pub open spec fn kept<M, S>(
    a: Session<M, S>,
    b: Session<M, S>,
    state: bool,
    mode: bool,
    transcript: bool,
    servers: bool,
    allowed: bool,
    turns: bool,
    time: bool,
    usage: bool,
) -> bool {
    &&& (!state ==> b.state == a.state)
    &&& b.cwd == a.cwd
    &&& (!mode ==> b.mode == a.mode)
    &&& (!transcript ==> b.transcript == a.transcript)
    &&& (!servers ==> b.mcp_servers == a.mcp_servers)
    &&& (!allowed ==> b.always_allowed == a.always_allowed)
    &&& (!turns ==> b.turn_count == a.turn_count)
    &&& (!time ==> b.last_activity_at == a.last_activity_at)
    &&& (!usage ==> b.usage == a.usage)
}

/// The decimal id a session gets: `nail-N`.
pub open spec fn session_id(n: nat) -> Seq<char> {
    "nail-"@ + text::dec(n)
}

/// The mode a new session starts in where nothing else is configured.
pub open spec fn default_mode() -> Seq<char> {
    crate::llm::default_model()
}

/// Whether `t` is among the strings of `v`.
pub open spec fn has_str(v: Seq<String>, t: Seq<char>) -> bool {
    exists|i: int| 0 <= i < v.len() && v[i]@ == t
}

/// The transcript as kept: its last `max` messages.
pub open spec fn capped<M>(t: Seq<M>, max: usize) -> Seq<M> {
    if t.len() > max {
        t.subrange(t.len() - max, t.len() as int)
    } else {
        t
    }
}

/// Whether `a` and `b` hold the same strings in the same order.
pub open spec fn same_strs(a: Seq<String>, b: Seq<String>) -> bool {
    a.len() == b.len() && forall|i: int| 0 <= i < a.len() ==> #[trigger] a[i]@ == b[i]@
}

fn contains_str(v: &Vec<String>, t: &str) -> (b: bool)
    ensures
        b == has_str(v@, t@),
{
    let mut i: usize = 0;
    while i < v.len()
        invariant
            0 <= i <= v@.len(),
            forall|j: int| 0 <= j < i ==> v@[j]@ != t@,
        decreases v@.len() - i,
    {
        if text::str_eq(v[i].as_str(), t) {
            return true;
        }
        i = i + 1;
    }
    false
}

fn copy_strings(v: &Vec<String>) -> (r: Vec<String>)
    ensures
        r@.len() == v@.len(),
        forall|i: int| 0 <= i < v@.len() ==> r@[i]@ == v@[i]@,
{
    let mut r: Vec<String> = Vec::new();
    let mut i: usize = 0;
    while i < v.len()
        invariant
            0 <= i <= v@.len(),
            r@.len() == i,
            forall|j: int| 0 <= j < i ==> r@[j]@ == v@[j]@,
        decreases v@.len() - i,
    {
        r.push(v[i].clone());
        i = i + 1;
    }
    r
}

fn clone_all<X: Clone>(v: &Vec<X>) -> (r: Vec<X>)
    ensures
        crate::fsm::vec_cloned(v@, r@),
{
    let r = v.clone();
    proof {
        assert forall|i: int| 0 <= i < v@.len() implies cloned(#[trigger] v@[i], r@[i]) by {
            assert(cloned(v[i], r[i]));
        }
    }
    r
}

impl<M: Clone, S: Clone> Sessions<M, S> {
    /// Ids are unique and each has its session.
    pub open spec fn wf(&self) -> bool {
        &&& self.ids@.len() == self.sessions@.len()
        &&& forall|i: int, j: int|
            0 <= i < self.ids@.len() && 0 <= j < self.ids@.len() && i != j ==> #[trigger] self.ids@[i]@
                != #[trigger] self.ids@[j]@
    }

    /// Whether a session `id` exists.
    pub open spec fn has(&self, id: Seq<char>) -> bool {
        has_str(self.ids@, id)
    }

    /// Where the session `id` is kept.
    pub open spec fn idx(&self, id: Seq<char>) -> int {
        choose|i: int| 0 <= i < self.ids@.len() && self.ids@[i]@ == id
    }

    /// The session `id` (meaningful where it exists).
    pub open spec fn get(&self, id: Seq<char>) -> Session<M, S> {
        self.sessions@[self.idx(id)]
    }

    /// Every other session is left as it was.
    pub open spec fn others_kept(&self, other: &Self, id: Seq<char>) -> bool {
        &&& forall|k: Seq<char>| k != id ==> (#[trigger] self.has(k) <==> other.has(k))
        &&& forall|k: Seq<char>| k != id && other.has(k) ==> #[trigger] self.get(k) == other.get(k)
    }

    /// No session yet; the first created gets number 1. New sessions start
    /// in the default mode and transcripts keep `MAX_TRANSCRIPT` messages.
    pub fn new() -> (s: Self)
        ensures
            s.wf(),
            forall|k: Seq<char>| !s.has(k),
            s.next_id == 1,
            s.default_mode@ == default_mode(),
            s.max_transcript == MAX_TRANSCRIPT,
    {
        Self::with_settings(text::owned("qwen3.7-flash"), MAX_TRANSCRIPT)
    }

    /// No session yet; new sessions start in `default_mode` and saved
    /// transcripts keep their last `max_transcript` messages.
    pub fn with_settings(default_mode: String, max_transcript: usize) -> (s: Self)
        ensures
            s.wf(),
            forall|k: Seq<char>| !s.has(k),
            s.next_id == 1,
            s.default_mode == default_mode,
            s.max_transcript == max_transcript,
    {
        Sessions { ids: Vec::new(), sessions: Vec::new(), next_id: 1, default_mode, max_transcript }
    }

    fn find(&self, id: &str) -> (r: Option<usize>)
        requires
            self.wf(),
        ensures
            match r {
                Some(i) => i < self.ids@.len() && self.ids@[i as int]@ == id@ && self.idx(id@) == i && self.has(id@),
                None => !self.has(id@),
            },
    {
        let mut i: usize = 0;
        while i < self.ids.len()
            invariant
                self.wf(),
                0 <= i <= self.ids@.len(),
                forall|j: int| 0 <= j < i ==> self.ids@[j]@ != id@,
            decreases self.ids@.len() - i,
        {
            if text::str_eq(self.ids[i].as_str(), id) {
                proof {
                    assert(self.ids@[i as int]@ == id@);
                    assert(has_str(self.ids@, id@));
                    let c = self.idx(id@);
                    assert(0 <= c < self.ids@.len() && self.ids@[c]@ == id@);
                    if c != i {
                        assert(self.ids@[c]@ != self.ids@[i as int]@);
                    }
                }
                return Some(i);
            }
            i = i + 1;
        }
        None
    }

    /// Whether the session exists.
    pub fn session_exists(&self, id: &str) -> (b: bool)
        requires
            self.wf(),
        ensures
            b == self.has(id@),
    {
        self.find(id).is_some()
    }

    /// Replaces the session at `i` by `s`; ids are unchanged.
    fn put(&mut self, i: usize, s: Session<M, S>)
        requires
            old(self).wf(),
            i < old(self).ids@.len(),
        ensures
            final(self).wf(),
            final(self).ids == old(self).ids,
            final(self).next_id == old(self).next_id,
            final(self).sessions@ == old(self).sessions@.update(i as int, s),
            final(self).has(old(self).ids@[i as int]@),
            final(self).get(old(self).ids@[i as int]@) == s,
            final(self).others_kept(&*old(self), old(self).ids@[i as int]@),
    {
        self.sessions.set(i, s);
        proof {
            let id = old(self).ids@[i as int]@;
            assert(self.has(id));
            let c = self.idx(id);
            assert(self.ids@[c]@ == id);
            assert(c == i);
            assert forall|k: Seq<char>| k != id && old(self).has(k) implies #[trigger] self.get(k) == old(self).get(
                k,
            ) by {
                let ck = self.idx(k);
                assert(self.ids@[ck]@ == k);
                assert(ck != i);
            }
        }
    }

    /// The working directory of the session, if it exists.
    pub fn cwd_of(&self, id: &str) -> (r: Option<String>)
        requires
            self.wf(),
        ensures
            self.has(id@) ==> (r matches Some(c) && c@ == self.get(id@).cwd@),
            !self.has(id@) ==> r is None,
    {
        match self.find(id) {
            Some(i) => Some(self.sessions[i].cwd.clone()),
            None => None,
        }
    }

    /// The mode of the session, if it exists.
    pub fn mode_of(&self, id: &str) -> (r: Option<String>)
        requires
            self.wf(),
        ensures
            self.has(id@) ==> (r matches Some(m) && m@ == self.get(id@).mode@),
            !self.has(id@) ==> r is None,
    {
        match self.find(id) {
            Some(i) => Some(self.sessions[i].mode.clone()),
            None => None,
        }
    }

    /// A copy of the transcript of the session, if it exists.
    pub fn transcript_of(&self, id: &str) -> (r: Option<Vec<M>>)
        requires
            self.wf(),
        ensures
            self.has(id@) ==> (r matches Some(t) && crate::fsm::vec_cloned(self.get(id@).transcript@, t@)),
            !self.has(id@) ==> r is None,
    {
        match self.find(id) {
            Some(i) => Some(clone_all(&self.sessions[i].transcript)),
            None => None,
        }
    }

    /// A copy of the MCP servers of the session, if it exists.
    pub fn mcp_servers_of(&self, id: &str) -> (r: Option<Vec<S>>)
        requires
            self.wf(),
        ensures
            self.has(id@) ==> (r matches Some(v) && crate::fsm::vec_cloned(self.get(id@).mcp_servers@, v@)),
            !self.has(id@) ==> r is None,
    {
        match self.find(id) {
            Some(i) => Some(clone_all(&self.sessions[i].mcp_servers)),
            None => None,
        }
    }

    /// Whether the tool was approved with "allow always" in the session.
    pub fn is_always_allowed(&self, id: &str, tool: &str) -> (b: bool)
        requires
            self.wf(),
        ensures
            b == (self.has(id@) && has_str(self.get(id@).always_allowed@, tool@)),
    {
        match self.find(id) {
            Some(i) => contains_str(&self.sessions[i].always_allowed, tool),
            None => false,
        }
    }

    /// Creates a session `nail-N` (N the next number) in `Created` state
    /// in the registry's default mode; a session that already had that id
    /// is replaced.
    pub fn create(&mut self, cwd: String, mcp_servers: Vec<S>, now: u64) -> (id: String)
        requires
            old(self).wf(),
        ensures
            final(self).wf(),
            id@ == session_id(old(self).next_id as nat),
            final(self).next_id == (if old(self).next_id == u64::MAX { 0 } else { old(self).next_id + 1 }),
            final(self).has(id@),
            final(self).get(id@).state == SessionState::Created,
            final(self).get(id@).cwd == cwd,
            final(self).get(id@).mode@ == old(self).default_mode@,
            final(self).get(id@).transcript@.len() == 0,
            final(self).get(id@).mcp_servers == mcp_servers,
            final(self).get(id@).always_allowed@.len() == 0,
            final(self).get(id@).turn_count == 0,
            final(self).get(id@).last_activity_at == now,
            final(self).get(id@).usage.input == 0 && final(self).get(id@).usage.output == 0,
            final(self).others_kept(&*old(self), id@),
    {
        let mut id = text::owned("nail-");
        text::push_dec_u64(&mut id, self.next_id);
        self.next_id = if self.next_id == u64::MAX { 0 } else { self.next_id + 1 };
        let session = Session {
            state: SessionState::Created,
            cwd,
            mode: text::owned(self.default_mode.as_str()),
            transcript: Vec::new(),
            mcp_servers,
            always_allowed: Vec::new(),
            turn_count: 0,
            last_activity_at: now,
            usage: crate::llm::Usage::zero(),
        };
        match self.find(id.as_str()) {
            Some(i) => {
                self.put(i, session);
            },
            None => {
                self.insert_new(id.clone(), session);
            },
        }
        id
    }

    /// Adds the session `s` under a new id.
    fn insert_new(&mut self, id: String, s: Session<M, S>)
        requires
            old(self).wf(),
            !old(self).has(id@),
        ensures
            final(self).wf(),
            final(self).next_id == old(self).next_id,
            final(self).has(id@),
            final(self).get(id@) == s,
            final(self).others_kept(&*old(self), id@),
    {
        let ghost before = *self;
        let ghost idv = id@;
        self.ids.push(id);
        self.sessions.push(s);
        proof {
            let n = before.ids@.len() as int;
            assert(self.ids@[n]@ == idv);
            assert forall|i: int, j: int|
                0 <= i < self.ids@.len() && 0 <= j < self.ids@.len() && i != j implies #[trigger] self.ids@[i]@
                != #[trigger] self.ids@[j]@ by {
                if i < n && j < n {
                    assert(self.ids@[i] == before.ids@[i] && self.ids@[j] == before.ids@[j]);
                } else if i == n {
                    assert(self.ids@[j] == before.ids@[j]);
                } else {
                    assert(self.ids@[i] == before.ids@[i]);
                }
            }
            assert(self.has(idv));
            let c = self.idx(idv);
            assert(self.ids@[c]@ == idv);
            assert(c == n);
            assert forall|k: Seq<char>| k != idv implies (#[trigger] self.has(k) <==> before.has(k)) by {
                if before.has(k) {
                    let w = choose|w: int| 0 <= w < before.ids@.len() && before.ids@[w]@ == k;
                    assert(self.ids@[w] == before.ids@[w]);
                }
                if self.has(k) {
                    let w = choose|w: int| 0 <= w < self.ids@.len() && self.ids@[w]@ == k;
                    assert(w != n);
                    assert(self.ids@[w] == before.ids@[w]);
                }
            }
            assert forall|k: Seq<char>| k != idv && before.has(k) implies #[trigger] self.get(k) == before.get(k) by {
                let cb = before.idx(k);
                let cs = self.idx(k);
                assert(before.ids@[cb]@ == k);
                assert(self.ids@[cb] == before.ids@[cb]);
                assert(self.ids@[cs]@ == k);
                assert(cs == cb);
                assert(self.sessions@[cb] == before.sessions@[cb]);
            }
        }
    }

    /// The session at `i` replaced by `x`: the registry stays well formed
    /// and no other session changes.
    proof fn lemma_update(before: Self, after: Self, i: int, x: Session<M, S>)
        requires
            before.wf(),
            0 <= i < before.ids@.len(),
            after.ids == before.ids,
            after.sessions@ == before.sessions@.update(i, x),
        ensures
            after.wf(),
            after.has(before.ids@[i]@),
            after.get(before.ids@[i]@) == x,
            after.others_kept(&before, before.ids@[i]@),
    {
        let id = before.ids@[i]@;
        assert(after.has(id));
        let c = after.idx(id);
        assert(after.ids@[c]@ == id);
        assert(c == i);
        assert forall|k: Seq<char>| k != id && before.has(k) implies #[trigger] after.get(k) == before.get(k) by {
            let ck = after.idx(k);
            assert(after.ids@[ck]@ == k);
            assert(ck != i);
        }
    }

    /// Drops the session. Returns whether it existed.
    pub fn remove(&mut self, id: &str) -> (b: bool)
        requires
            old(self).wf(),
        ensures
            final(self).wf(),
            b == old(self).has(id@),
            !final(self).has(id@),
            final(self).next_id == old(self).next_id,
            final(self).others_kept(&*old(self), id@),
    {
        let ghost before = *self;
        match self.find(id) {
            None => false,
            Some(i) => {
                self.ids.remove(i);
                self.sessions.remove(i);
                proof {
                    let n = before.ids@.len() as int;
                    let ii = i as int;
                    assert forall|a: int| 0 <= a < self.ids@.len() implies #[trigger] self.ids@[a] == before.ids@[
                        if a < ii { a } else { a + 1 }] by {}
                    assert forall|a: int| 0 <= a < self.sessions@.len() implies #[trigger] self.sessions@[a]
                        == before.sessions@[if a < ii { a } else { a + 1 }] by {}
                    assert forall|a: int, b: int|
                        0 <= a < self.ids@.len() && 0 <= b < self.ids@.len() && a != b implies #[trigger] self.ids@[a]@
                        != #[trigger] self.ids@[b]@ by {
                        let a2 = if a < ii { a } else { a + 1 };
                        let b2 = if b < ii { b } else { b + 1 };
                        assert(before.ids@[a2]@ != before.ids@[b2]@);
                    }
                    if self.has(id@) {
                        let w = choose|w: int| 0 <= w < self.ids@.len() && self.ids@[w]@ == id@;
                        let w2 = if w < ii { w } else { w + 1 };
                        assert(before.ids@[w2]@ == id@);
                        assert(w2 != ii);
                    }
                    assert forall|k: Seq<char>| k != id@ implies (#[trigger] self.has(k) <==> before.has(k)) by {
                        if before.has(k) {
                            let w = choose|w: int| 0 <= w < before.ids@.len() && before.ids@[w]@ == k;
                            assert(w != ii);
                            let w1 = if w < ii { w } else { w - 1 };
                            assert(self.ids@[w1] == before.ids@[w]);
                        }
                        if self.has(k) {
                            let w = choose|w: int| 0 <= w < self.ids@.len() && self.ids@[w]@ == k;
                            let w2 = if w < ii { w } else { w + 1 };
                            assert(before.ids@[w2]@ == k);
                        }
                    }
                    assert forall|k: Seq<char>| k != id@ && before.has(k) implies #[trigger] self.get(k) == before.get(k) by {
                        let cb = before.idx(k);
                        assert(before.ids@[cb]@ == k);
                        assert(cb != ii);
                        let c1 = if cb < ii { cb } else { cb - 1 };
                        assert(self.ids@[c1] == before.ids@[cb]);
                        assert(self.has(k));
                        let cs = self.idx(k);
                        assert(self.ids@[cs]@ == k);
                        assert(cs == c1);
                    }
                }
                true
            },
        }
    }

    /// Switches the session's mode. Returns whether it exists.
    pub fn set_mode(&mut self, id: &str, mode: &str, now: u64) -> (b: bool)
        requires
            old(self).wf(),
        ensures
            final(self).wf(),
            b == old(self).has(id@),
            final(self).next_id == old(self).next_id,
            !old(self).has(id@) ==> *final(self) == *old(self),
            old(self).has(id@) ==> final(self).has(id@) && final(self).get(id@).mode@ == mode@
                && final(self).get(id@).last_activity_at == now && kept(old(self).get(id@), final(self).get(id@), false, true, false, false, false, false, true, false),
            final(self).others_kept(&*old(self), id@),
    {
        let ghost before = *self;
        match self.find(id) {
            None => false,
            Some(i) => {
                let mut s = self.sessions.remove(i);
                s.mode = text::owned(mode);
                s.last_activity_at = now;
                let ghost x = s;
                self.sessions.insert(i, s);
                proof {
                    assert(self.sessions@ =~= before.sessions@.update(i as int, x));
                    Self::lemma_update(before, *self, i as int, x);
                }
                true
            },
        }
    }

    /// Replaces the session's MCP servers. Returns whether it exists.
    pub fn set_mcp_servers(&mut self, id: &str, servers: Vec<S>) -> (b: bool)
        requires
            old(self).wf(),
        ensures
            final(self).wf(),
            b == old(self).has(id@),
            final(self).next_id == old(self).next_id,
            !old(self).has(id@) ==> *final(self) == *old(self),
            old(self).has(id@) ==> final(self).has(id@) && final(self).get(id@).mcp_servers == servers
                && kept(old(self).get(id@), final(self).get(id@), false, false, false, true, false, false, false, false),
            final(self).others_kept(&*old(self), id@),
    {
        let ghost before = *self;
        match self.find(id) {
            None => false,
            Some(i) => {
                let mut s = self.sessions.remove(i);
                s.mcp_servers = servers;
                let ghost x = s;
                self.sessions.insert(i, s);
                proof {
                    assert(self.sessions@ =~= before.sessions@.update(i as int, x));
                    Self::lemma_update(before, *self, i as int, x);
                }
                true
            },
        }
    }

    /// Remembers that the tool was approved with "allow always" in the
    /// session (nothing happens for an unknown session).
    pub fn remember_allow_always(&mut self, id: &str, tool: &str)
        requires
            old(self).wf(),
        ensures
            final(self).wf(),
            final(self).next_id == old(self).next_id,
            !old(self).has(id@) ==> *final(self) == *old(self),
            old(self).has(id@) ==> final(self).has(id@) && (forall|t: Seq<char>|
                has_str(final(self).get(id@).always_allowed@, t) <==> (has_str(old(self).get(id@).always_allowed@, t)
                    || t == tool@)) && kept(old(self).get(id@), final(self).get(id@), false, false, false, false, true, false, false, false),
            final(self).others_kept(&*old(self), id@),
    {
        let ghost before = *self;
        match self.find(id) {
            None => {},
            Some(i) => {
                let mut s = self.sessions.remove(i);
                let ghost old_allowed = s.always_allowed@;
                if !contains_str(&s.always_allowed, tool) {
                    s.always_allowed.push(text::owned(tool));
                    proof {
                        assert forall|t: Seq<char>| has_str(s.always_allowed@, t) <==> (has_str(old_allowed, t) || t
                            == tool@) by {
                            if has_str(old_allowed, t) {
                                let w = choose|w: int| 0 <= w < old_allowed.len() && old_allowed[w]@ == t;
                                assert(s.always_allowed@[w] == old_allowed[w]);
                            }
                            if t == tool@ {
                                assert(s.always_allowed@[old_allowed.len() as int]@ == t);
                            }
                            if has_str(s.always_allowed@, t) {
                                let w = choose|w: int| 0 <= w < s.always_allowed@.len() && s.always_allowed@[w]@ == t;
                                if w < old_allowed.len() {
                                    assert(s.always_allowed@[w] == old_allowed[w]);
                                }
                            }
                        }
                    }
                }
                let ghost x = s;
                self.sessions.insert(i, s);
                proof {
                    assert(self.sessions@ =~= before.sessions@.update(i as int, x));
                    Self::lemma_update(before, *self, i as int, x);
                }
            },
        }
    }

    /// Replaces the transcript of the session by its last `max_transcript`
    /// messages and hands back the record to persist; `None` (and nothing
    /// changed) for an unknown session.
    pub fn save_transcript(&mut self, id: &str, transcript: Vec<M>, now: u64) -> (r: Option<StoredSession<M>>)
        requires
            old(self).wf(),
        ensures
            final(self).wf(),
            final(self).next_id == old(self).next_id,
            !old(self).has(id@) ==> r is None && *final(self) == *old(self),
            old(self).has(id@) ==> final(self).has(id@) && r is Some
                && crate::fsm::vec_cloned(capped(transcript@, old(self).max_transcript), final(self).get(id@).transcript@)
                && final(self).get(id@).last_activity_at == now
                && kept(old(self).get(id@), final(self).get(id@), false, false, true, false, false, false, true, false)
                && r->0.cwd == old(self).get(id@).cwd
                && r->0.mode == old(self).get(id@).mode
                && r->0.transcript@ == capped(transcript@, old(self).max_transcript)
                && same_strs(r->0.always_allowed@, old(self).get(id@).always_allowed@),
            final(self).others_kept(&*old(self), id@),
    {
        let ghost before = *self;
        match self.find(id) {
            None => None,
            Some(i) => {
                let mut transcript = transcript;
                let n = transcript.len();
                if n > self.max_transcript {
                    transcript = transcript.split_off(n - self.max_transcript);
                }
                let mut s = self.sessions.remove(i);
                s.transcript = clone_all(&transcript);
                s.last_activity_at = now;
                let stored = StoredSession {
                    cwd: s.cwd.clone(),
                    mode: s.mode.clone(),
                    transcript,
                    always_allowed: copy_strings(&s.always_allowed),
                };
                let ghost x = s;
                self.sessions.insert(i, s);
                proof {
                    assert(self.sessions@ =~= before.sessions@.update(i as int, x));
                    Self::lemma_update(before, *self, i as int, x);
                }
                Some(stored)
            },
        }
    }

    /// Brings back a session from its persisted record. A live session
    /// resumes as it is; without a record nothing happens and `false` comes
    /// back. A restored session starts `Created`, with no turn, no usage
    /// and no MCP servers (the client resends them).
    pub fn restore(&mut self, id: &str, stored: Option<StoredSession<M>>, now: u64) -> (b: bool)
        requires
            old(self).wf(),
        ensures
            final(self).wf(),
            final(self).next_id == old(self).next_id,
            b == (old(self).has(id@) || stored is Some),
            old(self).has(id@) || stored is None ==> *final(self) == *old(self),
            !old(self).has(id@) && stored is Some ==> final(self).has(id@) && ({
                let r = stored->0;
                let s = final(self).get(id@);
                &&& s.state == SessionState::Created
                &&& s.cwd == r.cwd
                &&& s.mode == r.mode
                &&& s.transcript == r.transcript
                &&& s.mcp_servers@.len() == 0
                &&& s.always_allowed == r.always_allowed
                &&& s.turn_count == 0
                &&& s.last_activity_at == now
                &&& s.usage.input == 0 && s.usage.output == 0
            }),
            final(self).others_kept(&*old(self), id@),
    {
        if self.find(id).is_some() {
            return true;
        }
        match stored {
            None => false,
            Some(r) => {
                let session = Session {
                    state: SessionState::Created,
                    cwd: r.cwd,
                    mode: r.mode,
                    transcript: r.transcript,
                    mcp_servers: Vec::new(),
                    always_allowed: r.always_allowed,
                    turn_count: 0,
                    last_activity_at: now,
                    usage: crate::llm::Usage::zero(),
                };
                self.insert_new(text::owned(id), session);
                true
            },
        }
    }

    /// Sets the lifecycle state of the session. Returns whether it exists.
    pub fn set_state(&mut self, id: &str, state: SessionState, now: u64) -> (b: bool)
        requires
            old(self).wf(),
        ensures
            final(self).wf(),
            b == old(self).has(id@),
            final(self).next_id == old(self).next_id,
            !old(self).has(id@) ==> *final(self) == *old(self),
            old(self).has(id@) ==> final(self).has(id@) && final(self).get(id@).state == state
                && final(self).get(id@).last_activity_at == now
                && kept(old(self).get(id@), final(self).get(id@), true, false, false, false, false, false, true, false),
            final(self).others_kept(&*old(self), id@),
    {
        let ghost before = *self;
        match self.find(id) {
            None => false,
            Some(i) => {
                let mut s = self.sessions.remove(i);
                s.state = state;
                s.last_activity_at = now;
                let ghost x = s;
                self.sessions.insert(i, s);
                proof {
                    assert(self.sessions@ =~= before.sessions@.update(i as int, x));
                    Self::lemma_update(before, *self, i as int, x);
                }
                true
            },
        }
    }

    /// Counts one more turn for the session. Returns whether it exists.
    pub fn bump_turn(&mut self, id: &str, now: u64) -> (b: bool)
        requires
            old(self).wf(),
            old(self).has(id@) ==> old(self).get(id@).turn_count < u32::MAX,
        ensures
            final(self).wf(),
            b == old(self).has(id@),
            final(self).next_id == old(self).next_id,
            !old(self).has(id@) ==> *final(self) == *old(self),
            old(self).has(id@) ==> final(self).has(id@)
                && final(self).get(id@).turn_count == old(self).get(id@).turn_count + 1
                && final(self).get(id@).last_activity_at == now
                && kept(old(self).get(id@), final(self).get(id@), false, false, false, false, false, true, true, false),
            final(self).others_kept(&*old(self), id@),
    {
        let ghost before = *self;
        match self.find(id) {
            None => false,
            Some(i) => {
                let mut s = self.sessions.remove(i);
                s.turn_count = s.turn_count + 1;
                s.last_activity_at = now;
                let ghost x = s;
                self.sessions.insert(i, s);
                proof {
                    assert(self.sessions@ =~= before.sessions@.update(i as int, x));
                    Self::lemma_update(before, *self, i as int, x);
                }
                true
            },
        }
    }

    /// Marks the session `Cancelled`. Returns whether it exists.
    pub fn cancel(&mut self, id: &str, now: u64) -> (b: bool)
        requires
            old(self).wf(),
        ensures
            final(self).wf(),
            b == old(self).has(id@),
            final(self).next_id == old(self).next_id,
            !old(self).has(id@) ==> *final(self) == *old(self),
            old(self).has(id@) ==> final(self).has(id@) && final(self).get(id@).state == SessionState::Cancelled
                && final(self).get(id@).last_activity_at == now
                && kept(old(self).get(id@), final(self).get(id@), true, false, false, false, false, false, true, false),
            final(self).others_kept(&*old(self), id@),
    {
        self.set_state(id, SessionState::Cancelled, now)
    }

    /// Adds a turn's token usage to the session and returns the session's
    /// usage so far; `None` (and nothing changed) for an unknown session.
    pub fn add_usage(&mut self, id: &str, usage: crate::llm::Usage) -> (r: Option<crate::llm::Usage>)
        requires
            old(self).wf(),
            old(self).has(id@) ==> old(self).get(id@).usage.input + usage.input <= u64::MAX
                && old(self).get(id@).usage.output + usage.output <= u64::MAX,
        ensures
            final(self).wf(),
            final(self).next_id == old(self).next_id,
            !old(self).has(id@) ==> r is None && *final(self) == *old(self),
            old(self).has(id@) ==> final(self).has(id@) && r == Some(final(self).get(id@).usage)
                && final(self).get(id@).usage.input == old(self).get(id@).usage.input + usage.input
                && final(self).get(id@).usage.output == old(self).get(id@).usage.output + usage.output
                && kept(old(self).get(id@), final(self).get(id@), false, false, false, false, false, false, false, true),
            final(self).others_kept(&*old(self), id@),
    {
        let ghost before = *self;
        match self.find(id) {
            None => None,
            Some(i) => {
                let mut s = self.sessions.remove(i);
                s.usage.add(usage);
                let total = s.usage;
                let ghost x = s;
                self.sessions.insert(i, s);
                proof {
                    assert(self.sessions@ =~= before.sessions@.update(i as int, x));
                    Self::lemma_update(before, *self, i as int, x);
                }
                Some(total)
            },
        }
    }
}

} // verus!
