//! The agent's turn as a state machine: a pure transition function from
//! (state, event) to (next state, effect), and the driver's step that
//! decides, for each queued event, whether the turn goes on, which effect
//! the caller must perform, or whether the turn ends.
//!
//! Messages (`M`), tool definitions (`T`) and tool calls (`C`) are carried
//! through untouched; the machine never looks inside them.
use vstd::prelude::*;

verus! {

/// Where a turn stands.
pub enum State<M, T> {
    Idle { session_id: String },
    ContextLoading { session_id: String },
    ModelCalling { session_id: String, messages: Vec<M>, tools: Vec<T> },
    ModelResponseStreaming { session_id: String, messages: Vec<M>, tools: Vec<T>, accumulated: String },
    ToolsCalling { session_id: String, tools: Vec<T> },
    Done,
}

/// What happened.
pub enum Event<M, T, C> {
    UserMessageArrived,
    ContextLoaded { messages: Vec<M>, tools: Vec<T> },
    FirstChunkOfModelResponseArrived { delta: String },
    NextChunkOfModelResponseArrived { delta: String },
    ModelResponseFinishedWithoutToolCalls { full_content: String },
    ModelResponseFinishedWithToolCalls { tool_calls: Vec<C> },
    ToolsResponseArrived { updated_messages: Vec<M> },
}

/// What the caller must do next.
pub enum Effect<M, T, C> {
    LoadContext { session_id: String },
    CallModel { messages: Vec<M>, tools: Vec<T>, session_id: String },
    CallTools { messages: Vec<M>, tool_calls: Vec<C>, session_id: String },
    SaveSession { content: String, session_id: String },
    DoNothing,
}

/// Whether `b` is an element-wise clone of `a`.
pub open spec fn vec_cloned<X: Clone>(a: Seq<X>, b: Seq<X>) -> bool {
    a.len() == b.len() && forall|i: int| 0 <= i < a.len() ==> cloned(#[trigger] a[i], b[i])
}

/// The (state, event) pairs that have a transition.
pub open spec fn can_transit<M, T, C>(s: State<M, T>, e: Event<M, T, C>) -> bool {
    match (s, e) {
        (State::Idle { .. }, Event::UserMessageArrived) => true,
        (State::ContextLoading { .. }, Event::ContextLoaded { .. }) => true,
        (State::ModelCalling { .. }, Event::FirstChunkOfModelResponseArrived { .. }) => true,
        (State::ModelResponseStreaming { .. }, Event::NextChunkOfModelResponseArrived { .. }) => true,
        (State::ModelResponseStreaming { .. }, Event::ModelResponseFinishedWithoutToolCalls { .. }) => true,
        (State::ModelResponseStreaming { .. }, Event::ModelResponseFinishedWithToolCalls { .. }) => true,
        (State::ToolsCalling { .. }, Event::ToolsResponseArrived { .. }) => true,
        _ => false,
    }
}

/// The transition from `s` on `e` to `ns` with effect `ef`: a prompt loads
/// the context; the loaded context (or the tool results) is sent to the
/// model; streamed chunks accumulate; a finished answer ends the turn and
/// is saved; tool calls are run with the conversation so far. Where the next
/// state and the effect both hold a vector, the state holds a clone.
pub open spec fn transition<M: Clone, T: Clone, C>(
    s: State<M, T>,
    e: Event<M, T, C>,
    ns: State<M, T>,
    ef: Effect<M, T, C>,
) -> bool {
    match (s, e) {
        (State::Idle { session_id }, Event::UserMessageArrived) => {
            &&& ns matches State::ContextLoading { session_id: sid } && sid@ == session_id@
            &&& ef matches Effect::LoadContext { session_id: sid } && sid@ == session_id@
        },
        (State::ContextLoading { session_id }, Event::ContextLoaded { messages, tools }) => {
            &&& ns matches State::ModelCalling { session_id: sid, messages: ms, tools: ts } && sid@ == session_id@
                && vec_cloned(messages@, ms@) && vec_cloned(tools@, ts@)
            &&& ef matches Effect::CallModel { messages: ms, tools: ts, session_id: sid } && sid@ == session_id@
                && ms == messages && ts == tools
        },
        (State::ModelCalling { session_id, messages, tools }, Event::FirstChunkOfModelResponseArrived { delta }) => {
            &&& ns matches State::ModelResponseStreaming { session_id: sid, messages: ms, tools: ts, accumulated: acc }
                && sid@ == session_id@ && ms == messages && ts == tools && acc@ == delta@
            &&& ef is DoNothing
        },
        (
            State::ModelResponseStreaming { session_id, messages, tools, accumulated },
            Event::NextChunkOfModelResponseArrived { delta },
        ) => {
            &&& ns matches State::ModelResponseStreaming { session_id: sid, messages: ms, tools: ts, accumulated: acc }
                && sid@ == session_id@ && ms == messages && ts == tools && acc@ == accumulated@ + delta@
            &&& ef is DoNothing
        },
        (
            State::ModelResponseStreaming { session_id, .. },
            Event::ModelResponseFinishedWithoutToolCalls { full_content },
        ) => {
            &&& ns is Done
            &&& ef matches Effect::SaveSession { content, session_id: sid } && content@ == full_content@ && sid@
                == session_id@
        },
        (
            State::ModelResponseStreaming { session_id, messages, tools, .. },
            Event::ModelResponseFinishedWithToolCalls { tool_calls },
        ) => {
            &&& ns matches State::ToolsCalling { session_id: sid, tools: ts } && sid@ == session_id@ && vec_cloned(
                tools@,
                ts@,
            )
            &&& ef matches Effect::CallTools { messages: ms, tool_calls: tc, session_id: sid } && ms == messages
                && tc == tool_calls && sid@ == session_id@
        },
        (State::ToolsCalling { session_id, tools }, Event::ToolsResponseArrived { updated_messages }) => {
            &&& ns matches State::ModelCalling { session_id: sid, messages: ms, tools: ts } && sid@ == session_id@
                && vec_cloned(updated_messages@, ms@) && vec_cloned(tools@, ts@)
            &&& ef matches Effect::CallModel { messages: ms, tools: ts, session_id: sid } && sid@ == session_id@
                && ms == updated_messages && ts == tools
        },
        _ => false,
    }
}

fn clone_vec<X: Clone>(v: &Vec<X>) -> (r: Vec<X>)
    ensures
        vec_cloned(v@, r@),
{
    let r = v.clone();
    proof {
        assert forall|i: int| 0 <= i < v@.len() implies cloned(#[trigger] v@[i], r@[i]) by {
            assert(cloned(v[i], r[i]));
        }
    }
    r
}

fn copy_string(s: &String) -> (r: String)
    ensures
        r@ == s@,
{
    s.clone()
}

/// The transition of the turn from `state` on `event` (see `transition`);
/// a pair without one is refused.
pub fn transit<M: Clone, T: Clone, C>(state: State<M, T>, event: Event<M, T, C>) -> (r: Result<
    (State<M, T>, Effect<M, T, C>),
    String,
>)
    ensures
        r is Ok <==> can_transit(state, event),
        r matches Ok((ns, ef)) ==> transition(state, event, ns, ef),
        r matches Err(m) ==> m@ == "invalid state transition"@,
{
    match (state, event) {
        (State::Idle { session_id }, Event::UserMessageArrived) => Ok(
            (State::ContextLoading { session_id: copy_string(&session_id) }, Effect::LoadContext { session_id }),
        ),
        (State::ContextLoading { session_id }, Event::ContextLoaded { messages, tools }) => Ok(
            (
                State::ModelCalling {
                    session_id: copy_string(&session_id),
                    messages: clone_vec(&messages),
                    tools: clone_vec(&tools),
                },
                Effect::CallModel { messages, tools, session_id },
            ),
        ),
        (State::ModelCalling { session_id, messages, tools }, Event::FirstChunkOfModelResponseArrived { delta }) => Ok(
            (
                State::ModelResponseStreaming { session_id, messages, tools, accumulated: delta },
                Effect::DoNothing,
            ),
        ),
        (
            State::ModelResponseStreaming { session_id, messages, tools, accumulated },
            Event::NextChunkOfModelResponseArrived { delta },
        ) => {
            let mut acc = accumulated;
            crate::text::push_str(&mut acc, delta.as_str());
            Ok((State::ModelResponseStreaming { session_id, messages, tools, accumulated: acc }, Effect::DoNothing))
        },
        (
            State::ModelResponseStreaming { session_id, .. },
            Event::ModelResponseFinishedWithoutToolCalls { full_content },
        ) => Ok((State::Done, Effect::SaveSession { content: full_content, session_id })),
        (
            State::ModelResponseStreaming { session_id, messages, tools, .. },
            Event::ModelResponseFinishedWithToolCalls { tool_calls },
        ) => Ok(
            (
                State::ToolsCalling { session_id: copy_string(&session_id), tools: clone_vec(&tools) },
                Effect::CallTools { messages, tool_calls, session_id },
            ),
        ),
        (State::ToolsCalling { session_id, tools }, Event::ToolsResponseArrived { updated_messages }) => Ok(
            (
                State::ModelCalling {
                    session_id: copy_string(&session_id),
                    messages: clone_vec(&updated_messages),
                    tools: clone_vec(&tools),
                },
                Effect::CallModel { messages: updated_messages, tools, session_id },
            ),
        ),
        _ => Err(crate::text::owned("invalid state transition")),
    }
}

// ---------------------------------------------------------------------------
// Laws of the transition function
// ---------------------------------------------------------------------------

/// The session a state belongs to (none once done).
pub open spec fn state_session<M, T>(s: State<M, T>) -> Option<Seq<char>> {
    match s {
        State::Idle { session_id } => Some(session_id@),
        State::ContextLoading { session_id } => Some(session_id@),
        State::ModelCalling { session_id, .. } => Some(session_id@),
        State::ModelResponseStreaming { session_id, .. } => Some(session_id@),
        State::ToolsCalling { session_id, .. } => Some(session_id@),
        State::Done => None,
    }
}

/// The session an effect is for (none for `DoNothing`).
pub open spec fn effect_session<M, T, C>(e: Effect<M, T, C>) -> Option<Seq<char>> {
    match e {
        Effect::LoadContext { session_id } => Some(session_id@),
        Effect::CallModel { session_id, .. } => Some(session_id@),
        Effect::CallTools { session_id, .. } => Some(session_id@),
        Effect::SaveSession { session_id, .. } => Some(session_id@),
        Effect::DoNothing => None,
    }
}

/// A finished turn has no transition: every event is refused.
pub proof fn lemma_done_is_final<M, T, C>(e: Event<M, T, C>)
    ensures
        !can_transit(State::<M, T>::Done, e),
{
}

/// A transition never changes the session: the next state (unless the turn
/// is done) and any effect belong to the session of the current state.
pub proof fn lemma_session_kept<M: Clone, T: Clone, C>(
    s: State<M, T>,
    e: Event<M, T, C>,
    ns: State<M, T>,
    ef: Effect<M, T, C>,
)
    requires
        transition(s, e, ns, ef),
    ensures
        !(ns is Done) ==> state_session(ns) == state_session(s),
        !(ef is DoNothing) ==> effect_session(ef) == state_session(s),
{
}

/// The only transition into `Done` is a model answer without tool calls,
/// and its effect saves that answer.
pub proof fn lemma_done_saves_answer<M: Clone, T: Clone, C>(
    s: State<M, T>,
    e: Event<M, T, C>,
    ns: State<M, T>,
    ef: Effect<M, T, C>,
)
    requires
        transition(s, e, ns, ef),
        ns is Done,
    ensures
        e matches Event::ModelResponseFinishedWithoutToolCalls { full_content } && ef matches Effect::SaveSession {
            content,
            ..
        } && content@ == full_content@,
{
}

/// The chunks' text, in order.
pub open spec fn concat_all(ds: Seq<Seq<char>>) -> Seq<char>
    decreases ds.len(),
{
    if ds.len() == 0 {
        Seq::empty()
    } else {
        concat_all(ds.drop_last()) + ds.last()
    }
}

/// Whether `states[k]` goes to `states[k + 1]` on `events[k]`, chunk `k`
/// of a streamed answer: the first chunk, then the next ones.
pub open spec fn chunk_step<M: Clone, T: Clone, C>(
    states: Seq<State<M, T>>,
    events: Seq<Event<M, T, C>>,
    effects: Seq<Effect<M, T, C>>,
    deltas: Seq<Seq<char>>,
    k: int,
) -> bool {
    &&& transition(states[k], events[k], states[k + 1], effects[k])
    &&& k == 0 ==> (events[k] matches Event::FirstChunkOfModelResponseArrived { delta } && delta@ == deltas[k])
    &&& k > 0 ==> (events[k] matches Event::NextChunkOfModelResponseArrived { delta } && delta@ == deltas[k])
}

/// Whether `st` streams, for the session, messages and tools of `s0`, the
/// text `acc`.
pub open spec fn streams_from<M, T>(st: State<M, T>, s0: State<M, T>, acc: Seq<char>) -> bool {
    st matches State::ModelResponseStreaming { session_id, messages, tools, accumulated } && (s0 matches State::ModelCalling {
        session_id: sid,
        messages: ms,
        tools: ts,
    } && session_id@ == sid@ && messages == ms && tools == ts) && accumulated@ == acc
}

/// Streamed chunks accumulate: from a model call, the first chunk and then
/// each next one, each taken by a transition, leave the turn streaming the
/// text of all chunks in order, for the same session, messages and tools,
/// and no chunk has an effect.
pub proof fn lemma_chunks_accumulate<M: Clone, T: Clone, C>(
    states: Seq<State<M, T>>,
    events: Seq<Event<M, T, C>>,
    effects: Seq<Effect<M, T, C>>,
    deltas: Seq<Seq<char>>,
)
    requires
        deltas.len() >= 1,
        states.len() == deltas.len() + 1,
        events.len() == deltas.len(),
        effects.len() == deltas.len(),
        states[0] is ModelCalling,
        forall|k: int| 0 <= k < deltas.len() ==> #[trigger] chunk_step(states, events, effects, deltas, k),
    ensures
        streams_from(states[deltas.len() as int], states[0], concat_all(deltas)),
        forall|k: int| 0 <= k < deltas.len() ==> (#[trigger] effects[k]) is DoNothing,
{
    lemma_chunks_prefix(states, events, effects, deltas, deltas.len() - 1);
    assert(deltas.subrange(0, deltas.len() as int) =~= deltas);
    assert forall|k: int| 0 <= k < deltas.len() implies (#[trigger] effects[k]) is DoNothing by {
        lemma_chunks_prefix(states, events, effects, deltas, k);
        assert(chunk_step(states, events, effects, deltas, k));
        if k > 0 {
            lemma_chunks_prefix(states, events, effects, deltas, k - 1);
        }
    }
}

proof fn lemma_chunks_prefix<M: Clone, T: Clone, C>(
    states: Seq<State<M, T>>,
    events: Seq<Event<M, T, C>>,
    effects: Seq<Effect<M, T, C>>,
    deltas: Seq<Seq<char>>,
    k: int,
)
    requires
        0 <= k < deltas.len(),
        states.len() == deltas.len() + 1,
        events.len() == deltas.len(),
        effects.len() == deltas.len(),
        states[0] is ModelCalling,
        forall|j: int| 0 <= j < deltas.len() ==> #[trigger] chunk_step(states, events, effects, deltas, j),
    ensures
        streams_from(states[k + 1], states[0], concat_all(deltas.subrange(0, k + 1))),
    decreases k,
{
    assert(chunk_step(states, events, effects, deltas, k));
    let pre = deltas.subrange(0, k + 1);
    assert(pre.drop_last() =~= deltas.subrange(0, k));
    if k == 0 {
        assert(concat_all(pre) =~= deltas[0]) by {
            assert(pre.drop_last().len() == 0);
            assert(concat_all(pre.drop_last()) =~= Seq::<char>::empty());
            assert(pre.last() == deltas[0]);
            assert(concat_all(pre) == concat_all(pre.drop_last()) + pre.last());
        }
    } else {
        lemma_chunks_prefix(states, events, effects, deltas, k - 1);
    }
}

// ---------------------------------------------------------------------------
// Names for the log
// ---------------------------------------------------------------------------

pub open spec fn state_name_spec<M, T>(s: State<M, T>) -> Seq<char> {
    match s {
        State::Idle { .. } => "Idle"@,
        State::ContextLoading { .. } => "Preparing"@,
        State::ModelCalling { .. } => "CallingLlm"@,
        State::ModelResponseStreaming { .. } => "Streaming"@,
        State::ToolsCalling { .. } => "CallingTools"@,
        State::Done => "Done"@,
    }
}

/// The name a state is logged under.
pub fn state_name<M, T>(s: &State<M, T>) -> (r: &'static str)
    ensures
        r@ == state_name_spec(*s),
{
    match s {
        State::Idle { .. } => "Idle",
        State::ContextLoading { .. } => "Preparing",
        State::ModelCalling { .. } => "CallingLlm",
        State::ModelResponseStreaming { .. } => "Streaming",
        State::ToolsCalling { .. } => "CallingTools",
        State::Done => "Done",
    }
}

pub open spec fn event_name_spec<M, T, C>(e: Event<M, T, C>) -> Seq<char> {
    match e {
        Event::UserMessageArrived => "UserPromptArrived"@,
        Event::ContextLoaded { .. } => "ContextLoaded"@,
        Event::FirstChunkOfModelResponseArrived { .. } => "FirstDeltaArrived"@,
        Event::NextChunkOfModelResponseArrived { .. } => "NextDeltaArrived"@,
        Event::ModelResponseFinishedWithoutToolCalls { .. } => "LlmStreamFinishedWithoutToolCalls"@,
        Event::ModelResponseFinishedWithToolCalls { .. } => "LlmStreamFinishedWithToolCalls"@,
        Event::ToolsResponseArrived { .. } => "ToolResultArrived"@,
    }
}

/// The name an event is logged under.
pub fn event_name<M, T, C>(e: &Event<M, T, C>) -> (r: &'static str)
    ensures
        r@ == event_name_spec(*e),
{
    match e {
        Event::UserMessageArrived => "UserPromptArrived",
        Event::ContextLoaded { .. } => "ContextLoaded",
        Event::FirstChunkOfModelResponseArrived { .. } => "FirstDeltaArrived",
        Event::NextChunkOfModelResponseArrived { .. } => "NextDeltaArrived",
        Event::ModelResponseFinishedWithoutToolCalls { .. } => "LlmStreamFinishedWithoutToolCalls",
        Event::ModelResponseFinishedWithToolCalls { .. } => "LlmStreamFinishedWithToolCalls",
        Event::ToolsResponseArrived { .. } => "ToolResultArrived",
    }
}

pub open spec fn effect_name_spec<M, T, C>(e: Effect<M, T, C>) -> Seq<char> {
    match e {
        Effect::LoadContext { .. } => "LoadContext"@,
        Effect::CallModel { .. } => "CallLlmStream"@,
        Effect::CallTools { .. } => "CallTools"@,
        Effect::SaveSession { .. } => "SaveSession"@,
        Effect::DoNothing => "None"@,
    }
}

/// The name an effect is logged under.
pub fn effect_name<M, T, C>(e: &Effect<M, T, C>) -> (r: &'static str)
    ensures
        r@ == effect_name_spec(*e),
{
    match e {
        Effect::LoadContext { .. } => "LoadContext",
        Effect::CallModel { .. } => "CallLlmStream",
        Effect::CallTools { .. } => "CallTools",
        Effect::SaveSession { .. } => "SaveSession",
        Effect::DoNothing => "None",
    }
}

// ---------------------------------------------------------------------------
// The driver
// ---------------------------------------------------------------------------

/// The most model calls that follow tool results within one turn.
pub const MAX_ITERATIONS: usize = 32;

/// The time after which a turn is cut short, in milliseconds.
pub const TURN_TIME_LIMIT_MS: u128 = 120_000;

/// What the caller does after a step.
pub enum Step<M, T, C> {
    /// The turn is over.
    Finished,
    /// The turn is over once this last effect has been performed.
    FinishAfter(Effect<M, T, C>),
    /// Perform this effect and queue the events it yields, then step again.
    Perform(Effect<M, T, C>),
    /// Step again.
    Continue,
}

/// A turn in progress: its state, the events waiting (first at index 0) and
/// the number of model calls that followed tool results so far.
pub struct Driver<M, T, C> {
    pub state: State<M, T>,
    pub queue: Vec<Event<M, T, C>>,
    pub iterations: usize,
}

/// How one step that took a transition ends: a turn that reaches `Done`
/// finishes (after its effect, if any); a model call after tool results
/// counts, and the count may not pass `MAX_ITERATIONS`; otherwise the effect
/// is handed out, if there is one.
pub open spec fn step_outcome<M: Clone, T: Clone, C>(
    before: Driver<M, T, C>,
    after: Driver<M, T, C>,
    ef: Effect<M, T, C>,
    r: Step<M, T, C>,
) -> bool {
    if after.state is Done {
        &&& after.iterations == before.iterations
        &&& (ef is DoNothing ==> r is Finished)
        &&& (!(ef is DoNothing) ==> r == Step::FinishAfter(ef))
    } else {
        let counted = after.state is ModelCalling && before.state is ToolsCalling;
        &&& after.iterations == (if counted { before.iterations + 1 } else { before.iterations as int })
        &&& (after.iterations > MAX_ITERATIONS ==> r is Finished)
        &&& (after.iterations <= MAX_ITERATIONS ==> (ef is DoNothing ==> r is Continue) && (!(ef is DoNothing)
            ==> r == Step::Perform(ef)))
    }
}

/// One step from `before` to `after` at `elapsed_ms`, answered `r`: with no
/// event left the turn is over and nothing changes; otherwise the first
/// event is taken, and the turn is over after `TURN_TIME_LIMIT_MS` (the
/// state kept) or on an event the state has no transition for (the state
/// `Done`); else the transition is taken (see `step_outcome`). Only a step that goes on leaves the count within
/// `MAX_ITERATIONS`, and no step counts more than once.
pub open spec fn step_rel<M: Clone, T: Clone, C>(
    before: Driver<M, T, C>,
    after: Driver<M, T, C>,
    elapsed_ms: u128,
    r: Step<M, T, C>,
) -> bool {
    &&& before.queue@.len() == 0 ==> r is Finished && after == before
    &&& before.queue@.len() > 0 ==> after.queue@ == before.queue@.drop_first()
    &&& before.queue@.len() > 0 && elapsed_ms > TURN_TIME_LIMIT_MS ==> r is Finished && after.state == before.state
        && after.iterations == before.iterations
    &&& before.queue@.len() > 0 && elapsed_ms <= TURN_TIME_LIMIT_MS && !can_transit(before.state, before.queue@[0])
        ==> r is Finished && after.state is Done && after.iterations == before.iterations
    &&& before.queue@.len() > 0 && elapsed_ms <= TURN_TIME_LIMIT_MS && can_transit(before.state, before.queue@[0])
        ==> exists|ef: Effect<M, T, C>|
        transition(before.state, before.queue@[0], after.state, ef) && step_outcome(before, after, ef, r)
    &&& r is Continue || r is Perform ==> after.iterations <= MAX_ITERATIONS
    &&& after.iterations <= before.iterations + 1
}

/// `after` is `before` with `events` queued after the waiting ones.
pub open spec fn enqueued<M, T, C>(before: Driver<M, T, C>, after: Driver<M, T, C>, events: Vec<Event<M, T, C>>) -> bool {
    &&& after.queue@ == before.queue@ + events@
    &&& after.state == before.state
    &&& after.iterations == before.iterations
}

/// Step `i` of a run that went on: from `ds[i]`, having used `us[i]` of
/// `replies`, the step (answered `ss[i]`, leaving `mids[i]`) either
/// continued, or handed out an effect whose reply (the next one, `Ok`) was
/// queued, giving `ds[i + 1]`.
pub open spec fn went_on<M: Clone, T: Clone, C>(
    replies: Seq<Result<Vec<Event<M, T, C>>, String>>,
    elapsed_ms: u128,
    ds: Seq<Driver<M, T, C>>,
    mids: Seq<Driver<M, T, C>>,
    ss: Seq<Step<M, T, C>>,
    us: Seq<int>,
    i: int,
) -> bool {
    &&& step_rel(ds[i], mids[i], elapsed_ms, ss[i])
    &&& (ss[i] is Continue && ds[i + 1] == mids[i] && us[i + 1] == us[i]) || (ss[i] is Perform && 0 <= us[i]
        < replies.len() && us[i + 1] == us[i] + 1 && (replies[us[i]] matches Ok(events) && enqueued(
        mids[i],
        ds[i + 1],
        events,
    )))
}

/// A run from `start` that went on for `ss.len()` steps (see `went_on`),
/// standing at `ds.last()` having used `us.last()` replies.
pub open spec fn trace<M: Clone, T: Clone, C>(
    start: Driver<M, T, C>,
    replies: Seq<Result<Vec<Event<M, T, C>>, String>>,
    elapsed_ms: u128,
    ds: Seq<Driver<M, T, C>>,
    mids: Seq<Driver<M, T, C>>,
    ss: Seq<Step<M, T, C>>,
    us: Seq<int>,
) -> bool {
    &&& ds.len() == ss.len() + 1 && mids.len() == ss.len() && us.len() == ss.len() + 1
    &&& ds[0] == start && us[0] == 0
    &&& forall|i: int| 0 <= i < ss.len() ==> #[trigger] went_on(replies, elapsed_ms, ds, mids, ss, us, i)
}

/// How a run from `start` ends: after some steps that went on (see
/// `trace`), a last step finishes the turn (`EndTurn`, with its final
/// effect where it has one), or hands out an effect for which no reply is
/// left (`Pending`), or whose reply is an error (`Failed`).
pub open spec fn run_outcome<M: Clone, T: Clone, C>(
    start: Driver<M, T, C>,
    replies: Seq<Result<Vec<Event<M, T, C>>, String>>,
    elapsed_ms: u128,
    fin: Driver<M, T, C>,
    end: TurnEnd<M, T, C>,
    used: int,
) -> bool {
    exists|ds: Seq<Driver<M, T, C>>, mids: Seq<Driver<M, T, C>>, ss: Seq<Step<M, T, C>>, us: Seq<int>, s: Step<M, T, C>|
        #![trigger trace(start, replies, elapsed_ms, ds, mids, ss, us), step_rel(ds.last(), fin, elapsed_ms, s)]
        trace(start, replies, elapsed_ms, ds, mids, ss, us) && step_rel(ds.last(), fin, elapsed_ms, s) && {
            let u = us.last();
            match s {
                Step::Finished => end == TurnEnd::<M, T, C>::EndTurn(None) && used == u,
                Step::FinishAfter(ef) => end == TurnEnd::EndTurn(Some(ef)) && used == u,
                Step::Perform(ef) => (u == replies.len() && end == TurnEnd::Pending(ef) && used == u) || (0 <= u
                    < replies.len() && used == u + 1 && (replies[u] matches Err(e) && end
                    == TurnEnd::<M, T, C>::Failed(e))),
                Step::Continue => false,
            }
        }
}

impl<M: Clone, T: Clone, C> Driver<M, T, C> {
    /// A turn of `session_id` that starts with the user's prompt.
    pub fn new(session_id: String) -> (d: Self)
        ensures
            d.state matches State::Idle { session_id: sid } && sid@ == session_id@,
            d.queue@.len() == 1,
            d.queue@[0] is UserMessageArrived,
            d.iterations == 0,
    {
        let mut queue: Vec<Event<M, T, C>> = Vec::new();
        queue.push(Event::UserMessageArrived);
        Driver { state: State::Idle { session_id }, queue, iterations: 0 }
    }

    /// Queues the events an effect yielded, after those already waiting.
    pub fn enqueue(&mut self, events: Vec<Event<M, T, C>>)
        ensures
            final(self).queue@ == old(self).queue@ + events@,
            final(self).state == old(self).state,
            final(self).iterations == old(self).iterations,
    {
        let mut events = events;
        self.queue.append(&mut events);
    }

    /// Takes the next event and decides what follows: with no event left,
    /// after `TURN_TIME_LIMIT_MS`, or on an event the state has no
    /// transition for, the turn is over; otherwise the transition is taken
    /// (see `step_outcome`).
    pub fn step(&mut self, elapsed_ms: u128) -> (r: Step<M, T, C>)
        requires
            old(self).iterations <= MAX_ITERATIONS,
        ensures
            step_rel(*old(self), *final(self), elapsed_ms, r),
    {
        if self.queue.len() == 0 {
            return Step::Finished;
        }
        let ghost before = *self;
        let event = self.queue.remove(0);
        assert(self.queue@ =~= before.queue@.drop_first());
        if elapsed_ms > TURN_TIME_LIMIT_MS {
            return Step::Finished;
        }
        let was_tools = match self.state {
            State::ToolsCalling { .. } => true,
            _ => false,
        };
        let mut current: State<M, T> = State::Done;
        std::mem::swap(&mut current, &mut self.state);
        match transit(current, event) {
            Err(_) => Step::Finished,
            Ok((next, effect)) => {
                let ghost efg = effect;
                let is_done = match next {
                    State::Done => true,
                    _ => false,
                };
                let counted = match next {
                    State::ModelCalling { .. } => was_tools,
                    _ => false,
                };
                let nothing = match effect {
                    Effect::DoNothing => true,
                    _ => false,
                };
                self.state = next;
                if is_done {
                    let r = if nothing { Step::Finished } else { Step::FinishAfter(effect) };
                    assert(step_outcome(before, *self, efg, r));
                    return r;
                }
                if counted {
                    self.iterations = self.iterations + 1;
                    if self.iterations > MAX_ITERATIONS {
                        assert(step_outcome(before, *self, efg, Step::Finished));
                        return Step::Finished;
                    }
                }
                let r = if nothing { Step::Continue } else { Step::Perform(effect) };
                assert(step_outcome(before, *self, efg, r));
                r
            },
        }
    }
}

// ---------------------------------------------------------------------------
// A whole turn
// ---------------------------------------------------------------------------

/// The texts of a prompt's text blocks, in order.
pub open spec fn text_blocks(blocks: Seq<crate::proto::PromptBlock>) -> Seq<Seq<char>>
    decreases blocks.len(),
{
    if blocks.len() == 0 {
        Seq::empty()
    } else {
        let prev = text_blocks(blocks.drop_last());
        match blocks.last() {
            crate::proto::PromptBlock::Text(t) => prev.push(t@),
            _ => prev,
        }
    }
}

/// The user's message of a turn: its text blocks joined by newlines.
pub open spec fn turn_text(blocks: Seq<crate::proto::PromptBlock>) -> Seq<char> {
    crate::text::join(text_blocks(blocks), "\n"@)
}

/// Starts a turn of `session_id` on a prompt: a prompt whose message is
/// empty has nothing to run (`None`: no effect is performed and nothing is
/// saved); otherwise the fresh driver and the message to save come back.
pub fn start_turn<M: Clone, T: Clone, C>(blocks: &Vec<crate::proto::PromptBlock>, session_id: String) -> (r: Option<
    (Driver<M, T, C>, String),
>)
    ensures
        r is None <==> turn_text(blocks@).len() == 0,
        r matches Some((d, message)) ==> message@ == turn_text(blocks@) && (d.state matches State::Idle {
            session_id: sid,
        } && sid@ == session_id@) && d.queue@.len() == 1 && d.queue@[0] is UserMessageArrived && d.iterations == 0,
{
    let mut texts: Vec<String> = Vec::new();
    let mut i: usize = 0;
    while i < blocks.len()
        invariant
            0 <= i <= blocks@.len(),
            crate::text::views(texts@) == text_blocks(blocks@.subrange(0, i as int)),
        decreases blocks@.len() - i,
    {
        assert(blocks@.subrange(0, i + 1).drop_last() =~= blocks@.subrange(0, i as int));
        assert(blocks@.subrange(0, i + 1).last() == blocks@[i as int]);
        match &blocks[i] {
            crate::proto::PromptBlock::Text(t) => {
                texts.push(copy_string(t));
                assert(crate::text::views(texts@) =~= text_blocks(blocks@.subrange(0, i + 1)));
            },
            _ => {},
        }
        i = i + 1;
    }
    assert(blocks@.subrange(0, blocks@.len() as int) =~= blocks@);
    let message = crate::text::join_strings(&texts, "\n");
    if crate::text::chars_of(message.as_str()).len() == 0 {
        return None;
    }
    Some((Driver::new(session_id), message))
}

/// How a run of a turn ended.
pub enum TurnEnd<M, T, C> {
    /// The turn is over and the prompt is answered `EndTurn`; a last effect,
    /// where there is one, is still to be performed, whatever it yields.
    EndTurn(Option<Effect<M, T, C>>),
    /// A performed effect failed: the prompt fails with this detail.
    Failed(String),
    /// No reply is left for this effect: perform it, queue what it yields
    /// (`enqueue`) and run again.
    Pending(Effect<M, T, C>),
}

proof fn extend_trace<M: Clone, T: Clone, C>(
    start: Driver<M, T, C>,
    replies: Seq<Result<Vec<Event<M, T, C>>, String>>,
    elapsed_ms: u128,
    ds: Seq<Driver<M, T, C>>,
    mids: Seq<Driver<M, T, C>>,
    ss: Seq<Step<M, T, C>>,
    us: Seq<int>,
    mid: Driver<M, T, C>,
    s: Step<M, T, C>,
    next: Driver<M, T, C>,
    next_used: int,
)
    requires
        trace(start, replies, elapsed_ms, ds, mids, ss, us),
        step_rel(ds.last(), mid, elapsed_ms, s),
        (s is Continue && next == mid && next_used == us.last()) || (s is Perform && 0 <= us.last() < replies.len()
            && next_used == us.last() + 1 && (replies[us.last()] matches Ok(events) && enqueued(mid, next, events))),
    ensures
        trace(start, replies, elapsed_ms, ds.push(next), mids.push(mid), ss.push(s), us.push(next_used)),
{
    let ds2 = ds.push(next);
    let mids2 = mids.push(mid);
    let ss2 = ss.push(s);
    let us2 = us.push(next_used);
    assert forall|i: int| 0 <= i < ss2.len() implies #[trigger] went_on(replies, elapsed_ms, ds2, mids2, ss2, us2, i) by {
        if i < ss.len() {
            assert(went_on(replies, elapsed_ms, ds, mids, ss, us, i));
            assert(ds2[i] == ds[i] && ds2[i + 1] == ds[i + 1] && mids2[i] == mids[i] && ss2[i] == ss[i]);
            assert(us2[i] == us[i] && us2[i + 1] == us[i + 1]);
        } else {
            assert(ds2[i] == ds.last());
        }
    }
}

impl<M: Clone, T: Clone, C> Driver<M, T, C> {
    /// Runs the turn step by step (see `step`), `replies` being, in order,
    /// what the effects handed out yield; `elapsed_ms` is how long the turn
    /// has run. Returns how the run ended and how many replies it used,
    /// as `run_outcome` relates them to the steps taken.
    /// Every run ends: the turn ends `EndTurn` unless an effect failed or
    /// the replies ran out, and no effect is handed out after more than
    /// `MAX_ITERATIONS` model calls followed tool results.
    pub fn run(&mut self, replies: Vec<Result<Vec<Event<M, T, C>>, String>>, elapsed_ms: u128) -> (r: (
        TurnEnd<M, T, C>,
        usize,
    ))
        requires
            old(self).iterations <= MAX_ITERATIONS,
        ensures
            r.1 <= replies@.len(),
            final(self).iterations <= MAX_ITERATIONS + 1,
            r.0 is Pending ==> r.1 == replies@.len() && final(self).iterations <= MAX_ITERATIONS,
            r.0 matches TurnEnd::Pending(ef) ==> !(ef is DoNothing),
            r.0 matches TurnEnd::Failed(m) ==> r.1 >= 1 && (replies@[r.1 - 1] matches Err(e) && e@ == m@),
            forall|i: int| 0 <= i < r.1 && !(r.0 is Failed && i == r.1 - 1) ==> #[trigger] replies@[i] is Ok,
            (forall|i: int| 0 <= i < replies@.len() ==> #[trigger] replies@[i] is Ok) ==> (r.0 is EndTurn || (r.0 is Pending
                && r.1 == replies@.len())),
            run_outcome(*old(self), replies@, elapsed_ms, *final(self), r.0, r.1 as int),
    {
        let ghost all = replies@;
        let mut rest = replies;
        let total = rest.len();
        assert(all.len() == total);
        let mut used: usize = 0;
        let ghost start = *self;
        let ghost mut ds: Seq<Driver<M, T, C>> = seq![start];
        let ghost mut mids: Seq<Driver<M, T, C>> = Seq::empty();
        let ghost mut ss: Seq<Step<M, T, C>> = Seq::empty();
        let ghost mut us: Seq<int> = seq![0int];
        loop
            invariant
                self.iterations <= MAX_ITERATIONS,
                start == *old(self),
                trace(start, all, elapsed_ms, ds, mids, ss, us),
                ds.last() == *self,
                us.last() == used as int,
                all == replies@,
                all.len() <= usize::MAX,
                used <= all.len(),
                rest@ == all.subrange(used as int, all.len() as int),
                forall|i: int| 0 <= i < used ==> #[trigger] all[i] is Ok,
            decreases rest@.len(), self.queue@.len(),
        {
            let ghost q = self.queue@.len();
            let ghost prev = *self;
            let ghost u = used as int;
            let st = self.step(elapsed_ms);
            let ghost mid = *self;
            let ghost sg = st;
            match st {
                Step::Finished => {
                    assert(trace(start, all, elapsed_ms, ds, mids, ss, us) && step_rel(ds.last(), mid, elapsed_ms, sg));
                    assert(run_outcome(start, all, elapsed_ms, mid, TurnEnd::EndTurn(None), u));
                    return (TurnEnd::EndTurn(None), used);
                },
                Step::FinishAfter(ef) => {
                    assert(trace(start, all, elapsed_ms, ds, mids, ss, us) && step_rel(ds.last(), mid, elapsed_ms, sg));
                    assert(run_outcome(start, all, elapsed_ms, mid, TurnEnd::EndTurn(Some(ef)), u));
                    return (TurnEnd::EndTurn(Some(ef)), used);
                },
                Step::Continue => {
                    assert(self.queue@.len() < q);
                    proof {
                        extend_trace(start, all, elapsed_ms, ds, mids, ss, us, mid, sg, mid, u);
                        ds = ds.push(mid);
                        mids = mids.push(mid);
                        ss = ss.push(sg);
                        us = us.push(u);
                    }
                },
                Step::Perform(ef) => {
                    if rest.len() == 0 {
                        assert(used == all.len());
                        assert(trace(start, all, elapsed_ms, ds, mids, ss, us) && step_rel(ds.last(), mid, elapsed_ms, sg));
                        assert(run_outcome(start, all, elapsed_ms, mid, TurnEnd::Pending(ef), u));
                        return (TurnEnd::Pending(ef), used);
                    }
                    let reply = rest.remove(0);
                    assert(reply == all[used as int]);
                    assert(rest@ =~= all.subrange(used + 1, all.len() as int));
                    used = used + 1;
                    match reply {
                        Ok(events) => {
                            self.enqueue(events);
                            proof {
                                assert(all[u] matches Ok(evs) && enqueued(mid, *self, evs));
                                extend_trace(start, all, elapsed_ms, ds, mids, ss, us, mid, sg, *self, u + 1);
                                ds = ds.push(*self);
                                mids = mids.push(mid);
                                ss = ss.push(sg);
                                us = us.push(u + 1);
                            }
                        },
                        Err(e) => {
                            assert(trace(start, all, elapsed_ms, ds, mids, ss, us) && step_rel(ds.last(), mid, elapsed_ms, sg));
                            assert(run_outcome(start, all, elapsed_ms, mid, TurnEnd::Failed(e), used as int));
                            return (TurnEnd::Failed(e), used);
                        },
                    }
                },
            }
        }
    }
}

// ---------------------------------------------------------------------------
// Collecting a streamed model answer
// ---------------------------------------------------------------------------

/// One streamed fragment of a tool call: the call's index and, where the
/// fragment carries them, its id and pieces of its name and arguments.
pub struct ToolCallDelta {
    pub index: i32,
    pub id: Option<String>,
    pub name: Option<String>,
    pub arguments: Option<String>,
}

/// A tool call as far as its fragments have arrived.
pub struct PartialCall {
    pub index: i32,
    pub id: Option<String>,
    pub name: String,
    pub arguments: String,
}

/// A finished tool call.
pub struct CollectedCall {
    pub id: String,
    pub name: String,
    pub arguments: String,
}

/// How a streamed answer ended: plain text, or tool calls to run.
pub enum StreamEnd {
    Text(String),
    ToolCalls(Vec<CollectedCall>),
}

/// The state of a streamed answer: whether a text delta was seen yet, the
/// text so far and the tool calls in the order their indices first came.
pub struct StreamCollector {
    pub seen_delta: bool,
    pub full_content: String,
    pub calls: Vec<PartialCall>,
}

/// A partial call by value: (index, id, name, arguments).
pub open spec fn call_view(c: PartialCall) -> (int, Option<Seq<char>>, Seq<char>, Seq<char>) {
    (
        c.index as int,
        match c.id {
            Some(i) => Some(i@),
            None => None,
        },
        c.name@,
        c.arguments@,
    )
}

pub open spec fn calls_view(cs: Seq<PartialCall>) -> Seq<(int, Option<Seq<char>>, Seq<char>, Seq<char>)> {
    cs.map_values(|c: PartialCall| call_view(c))
}

/// The position of the first call with index `idx`, or -1.
pub open spec fn call_pos(cs: Seq<(int, Option<Seq<char>>, Seq<char>, Seq<char>)>, idx: int) -> int
    decreases cs.len(),
{
    if cs.len() == 0 {
        -1
    } else if call_pos(cs.drop_last(), idx) >= 0 {
        call_pos(cs.drop_last(), idx)
    } else if cs.last().0 == idx {
        cs.len() - 1
    } else {
        -1
    }
}

pub open spec fn opt_view(o: Option<String>) -> Option<Seq<char>> {
    match o {
        Some(s) => Some(s@),
        None => None,
    }
}

pub open spec fn or_empty(o: Option<String>) -> Seq<char> {
    match o {
        Some(s) => s@,
        None => Seq::<char>::empty(),
    }
}

/// The calls after one fragment: it extends the call with its index (a new
/// id replaces the old one; name and argument pieces are appended), or
/// starts a new call at the end.
pub open spec fn apply_delta(
    cs: Seq<(int, Option<Seq<char>>, Seq<char>, Seq<char>)>,
    d: ToolCallDelta,
) -> Seq<(int, Option<Seq<char>>, Seq<char>, Seq<char>)> {
    let p = call_pos(cs, d.index as int);
    if p >= 0 {
        let c = cs[p];
        cs.update(
            p,
            (c.0, if d.id is Some { opt_view(d.id) } else { c.1 }, c.2 + or_empty(d.name), c.3 + or_empty(d.arguments)),
        )
    } else {
        cs.push((d.index as int, opt_view(d.id), or_empty(d.name), or_empty(d.arguments)))
    }
}

/// The finished calls: those that received an id, in order.
pub open spec fn finished_calls(cs: Seq<(int, Option<Seq<char>>, Seq<char>, Seq<char>)>) -> Seq<
    (Seq<char>, Seq<char>, Seq<char>),
>
    decreases cs.len(),
{
    if cs.len() == 0 {
        Seq::empty()
    } else {
        let prev = finished_calls(cs.drop_last());
        match cs.last().1 {
            Some(id) => prev.push((id, cs.last().2, cs.last().3)),
            None => prev,
        }
    }
}

pub open spec fn collected_view(c: CollectedCall) -> (Seq<char>, Seq<char>, Seq<char>) {
    (c.id@, c.name@, c.arguments@)
}

fn copy_opt(o: &Option<String>) -> (r: Option<String>)
    ensures
        opt_view(r) == opt_view(*o),
{
    match o {
        Some(s) => Some(s.clone()),
        None => None,
    }
}

fn push_opt(s: &mut String, o: &Option<String>)
    ensures
        final(s)@ == old(s)@ + or_empty(*o),
{
    match o {
        Some(t) => crate::text::push_str(s, t.as_str()),
        None => {
            assert(old(s)@ + Seq::<char>::empty() =~= old(s)@);
        },
    }
}

impl StreamCollector {
    /// Nothing received yet.
    pub fn new() -> (c: Self)
        ensures
            !c.seen_delta,
            c.full_content@.len() == 0,
            c.calls@.len() == 0,
    {
        StreamCollector { seen_delta: false, full_content: String::new(), calls: Vec::new() }
    }

    /// Takes a text delta: it is added to the text, and the event it raises
    /// is returned: the first delta (even an empty one) starts the answer,
    /// later non-empty ones continue it.
    pub fn on_text<M, T, C>(&mut self, text: &str) -> (r: Option<Event<M, T, C>>)
        ensures
            final(self).seen_delta,
            final(self).full_content@ == old(self).full_content@ + text@,
            final(self).calls == old(self).calls,
            !old(self).seen_delta ==> (r matches Some(Event::FirstChunkOfModelResponseArrived { delta }) && delta@
                == text@),
            old(self).seen_delta && text@.len() > 0 ==> (r matches Some(Event::NextChunkOfModelResponseArrived { delta })
                && delta@ == text@),
            old(self).seen_delta && text@.len() == 0 ==> r is None,
    {
        crate::text::push_str(&mut self.full_content, text);
        if !self.seen_delta {
            self.seen_delta = true;
            Some(Event::FirstChunkOfModelResponseArrived { delta: crate::text::owned(text) })
        } else if crate::text::chars_of(text).len() > 0 {
            Some(Event::NextChunkOfModelResponseArrived { delta: crate::text::owned(text) })
        } else {
            None
        }
    }

    /// Takes a tool-call fragment (see `apply_delta`).
    pub fn on_tool_delta(&mut self, delta: &ToolCallDelta)
        ensures
            calls_view(final(self).calls@) == apply_delta(calls_view(old(self).calls@), *delta),
            final(self).seen_delta == old(self).seen_delta,
            final(self).full_content == old(self).full_content,
    {
        let ghost cv = calls_view(self.calls@);
        let mut p: usize = 0;
        while p < self.calls.len() && self.calls[p].index != delta.index
            invariant
                0 <= p <= self.calls@.len(),
                cv == calls_view(self.calls@),
                call_pos(cv.subrange(0, p as int), delta.index as int) == -1,
            decreases self.calls@.len() - p,
        {
            proof {
                let sub = cv.subrange(0, p + 1);
                assert(sub.drop_last() =~= cv.subrange(0, p as int));
            }
            p = p + 1;
        }
        assert(cv.subrange(0, cv.len() as int) =~= cv);
        let found = p < self.calls.len();
        if found {
            proof {
                lemma_call_pos_prefix(cv, p as int, delta.index as int);
            }
            let mut c = self.calls.remove(p);
            if delta.id.is_some() {
                c.id = copy_opt(&delta.id);
            }
            push_opt(&mut c.name, &delta.name);
            push_opt(&mut c.arguments, &delta.arguments);
            let ghost cc = c;
            self.calls.insert(p, c);
            assert(calls_view(self.calls@) =~= apply_delta(cv, *delta));
        } else {
            let mut name = String::new();
            push_opt(&mut name, &delta.name);
            let mut arguments = String::new();
            push_opt(&mut arguments, &delta.arguments);
            assert(name@ =~= or_empty(delta.name));
            assert(arguments@ =~= or_empty(delta.arguments));
            let c = PartialCall { index: delta.index, id: copy_opt(&delta.id), name, arguments };
            self.calls.push(c);
            assert(calls_view(self.calls@) =~= apply_delta(cv, *delta));
        }
    }

    /// How the answer ended: plain text when no tool call fragment came,
    /// else the calls that received an id.
    pub fn finish(self) -> (r: StreamEnd)
        ensures
            self.calls@.len() == 0 ==> (r matches StreamEnd::Text(t) && t@ == self.full_content@),
            self.calls@.len() > 0 ==> (r matches StreamEnd::ToolCalls(cs) && cs@.map_values(
                |c: CollectedCall| collected_view(c),
            ) == finished_calls(calls_view(self.calls@))),
    {
        if self.calls.len() == 0 {
            return StreamEnd::Text(self.full_content);
        }
        let ghost cv = calls_view(self.calls@);
        let mut out: Vec<CollectedCall> = Vec::new();
        let mut i: usize = 0;
        while i < self.calls.len()
            invariant
                0 <= i <= self.calls@.len(),
                cv == calls_view(self.calls@),
                out@.map_values(|c: CollectedCall| collected_view(c)) == finished_calls(cv.subrange(0, i as int)),
            decreases self.calls@.len() - i,
        {
            proof {
                let sub = cv.subrange(0, i + 1);
                assert(sub.drop_last() =~= cv.subrange(0, i as int));
            }
            let c = &self.calls[i];
            match &c.id {
                Some(id) => {
                    let ghost old_out = out@;
                    out.push(CollectedCall { id: id.clone(), name: c.name.clone(), arguments: c.arguments.clone() });
                    assert(out@.map_values(|c: CollectedCall| collected_view(c)) =~= old_out.map_values(
                        |c: CollectedCall| collected_view(c),
                    ).push((id@, c.name@, c.arguments@)));
                },
                None => {},
            }
            i = i + 1;
        }
        assert(cv.subrange(0, cv.len() as int) =~= cv);
        StreamEnd::ToolCalls(out)
    }
}

proof fn lemma_call_pos_prefix(cs: Seq<(int, Option<Seq<char>>, Seq<char>, Seq<char>)>, p: int, idx: int)
    requires
        0 <= p < cs.len(),
        call_pos(cs.subrange(0, p), idx) == -1,
        cs[p].0 == idx,
    ensures
        call_pos(cs, idx) == p,
    decreases cs.len(),
{
    if cs.len() - 1 > p {
        assert(cs.drop_last().subrange(0, p) =~= cs.subrange(0, p));
        lemma_call_pos_prefix(cs.drop_last(), p, idx);
    } else {
        assert(cs.drop_last() =~= cs.subrange(0, p));
    }
}

// ---------------------------------------------------------------------------
// The messages of a tool round
// ---------------------------------------------------------------------------

/// A message a tool round adds to the conversation.
pub enum RoundMessage {
    /// The assistant's message that carries the calls (it has no text).
    AssistantCalls(Vec<CollectedCall>),
    /// What one call gave back, for the call with this id; a failed call
    /// is reported in the content.
    ToolResult { call_id: String, content: String, failed: bool },
}

/// The message of the call whose outcome is `outcome`: its output, or
/// `tool call failed: ` and the error.
pub open spec fn tool_result_ok(m: RoundMessage, call: CollectedCall, outcome: Result<String, String>) -> bool {
    m matches RoundMessage::ToolResult { call_id, content, failed } && call_id@ == call.id@ && match outcome {
        Ok(out) => content@ == out@ && !failed,
        Err(e) => content@ == "tool call failed: "@ + e@ && failed,
    }
}

fn copy_call(c: &CollectedCall) -> (r: CollectedCall)
    ensures
        collected_view(r) == collected_view(*c),
{
    CollectedCall { id: copy_string(&c.id), name: copy_string(&c.name), arguments: copy_string(&c.arguments) }
}

/// The messages a tool round adds: the assistant's message with the calls,
/// then one result per call, in order, `outcomes[i]` being what call `i`
/// gave back (its output, or the error's text).
pub fn tool_round_messages(calls: &Vec<CollectedCall>, outcomes: &Vec<Result<String, String>>) -> (r: Vec<RoundMessage>)
    requires
        calls@.len() == outcomes@.len(),
    ensures
        r@.len() == calls@.len() + 1,
        r@[0] matches RoundMessage::AssistantCalls(cs) && cs@.map_values(|c: CollectedCall| collected_view(c))
            == calls@.map_values(|c: CollectedCall| collected_view(c)),
        forall|i: int| 0 <= i < calls@.len() ==> tool_result_ok(#[trigger] r@[i + 1], calls@[i], outcomes@[i]),
{
    let mut copies: Vec<CollectedCall> = Vec::new();
    let mut i: usize = 0;
    while i < calls.len()
        invariant
            0 <= i <= calls@.len(),
            copies@.len() == i,
            forall|k: int| 0 <= k < i ==> collected_view(#[trigger] copies@[k]) == collected_view(calls@[k]),
        decreases calls@.len() - i,
    {
        copies.push(copy_call(&calls[i]));
        i = i + 1;
    }
    assert(copies@.map_values(|c: CollectedCall| collected_view(c)) =~= calls@.map_values(
        |c: CollectedCall| collected_view(c),
    ));
    let mut r: Vec<RoundMessage> = Vec::new();
    r.push(RoundMessage::AssistantCalls(copies));
    let mut j: usize = 0;
    while j < calls.len()
        invariant
            0 <= j <= calls@.len(),
            calls@.len() == outcomes@.len(),
            r@.len() == j + 1,
            r@[0] matches RoundMessage::AssistantCalls(cs) && cs@.map_values(|c: CollectedCall| collected_view(c))
                == calls@.map_values(|c: CollectedCall| collected_view(c)),
            forall|k: int| 0 <= k < j ==> tool_result_ok(#[trigger] r@[k + 1], calls@[k], outcomes@[k]),
        decreases calls@.len() - j,
    {
        let m = match &outcomes[j] {
            Ok(out) => RoundMessage::ToolResult { call_id: copy_string(&calls[j].id), content: copy_string(out), failed: false },
            Err(e) => {
                let mut content = crate::text::owned("tool call failed: ");
                crate::text::push_str(&mut content, e.as_str());
                RoundMessage::ToolResult { call_id: copy_string(&calls[j].id), content, failed: true }
            },
        };
        r.push(m);
        assert(tool_result_ok(r@[j + 1], calls@[j as int], outcomes@[j as int]));
        j = j + 1;
    }
    r
}

} // verus!
