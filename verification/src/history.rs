//! The stored conversation of a session, as the state machine reads it.
use vstd::prelude::*;
use crate::text;

verus! {

/// One stored message: its id, who spoke, and what was said.
pub struct SingleMessage {
    pub id: String,
    pub role: String,
    pub content: String,
}

/// A message that goes back to the model: said by the user or by the assistant.
pub enum HistoryTurn {
    User(String),
    Assistant(String),
}

/// The view of a turn: `true` for the user, and the text.
pub open spec fn turn_view(t: HistoryTurn) -> (bool, Seq<char>) {
    match t {
        HistoryTurn::User(s) => (true, s@),
        HistoryTurn::Assistant(s) => (false, s@),
    }
}

/// The turns of a stored conversation, in order: messages of the `user`
/// and of the `assistant`; other roles are left out.
pub open spec fn turns_spec(h: Seq<SingleMessage>) -> Seq<(bool, Seq<char>)>
    decreases h.len(),
{
    if h.len() == 0 {
        Seq::empty()
    } else {
        let rest = turns_spec(h.drop_last());
        let m = h.last();
        if m.role@ == "user"@ {
            rest.push((true, m.content@))
        } else if m.role@ == "assistant"@ {
            rest.push((false, m.content@))
        } else {
            rest
        }
    }
}

/// The turns a stored conversation gives back to the model (see `turns_spec`).
pub fn history_turns(history: &Vec<SingleMessage>) -> (r: Vec<HistoryTurn>)
    ensures
        r@.map_values(|t: HistoryTurn| turn_view(t)) == turns_spec(history@),
{
    let mut r: Vec<HistoryTurn> = Vec::new();
    let mut i: usize = 0;
    while i < history.len()
        invariant
            0 <= i <= history@.len(),
            r@.map_values(|t: HistoryTurn| turn_view(t)) == turns_spec(history@.subrange(0, i as int)),
        decreases history@.len() - i,
    {
        let m = &history[i];
        assert(history@.subrange(0, i + 1).drop_last() =~= history@.subrange(0, i as int));
        assert(history@.subrange(0, i + 1).last() == history@[i as int]);
        let ghost before = r@;
        if text::str_eq(m.role.as_str(), "user") {
            r.push(HistoryTurn::User(m.content.clone()));
            assert(r@.map_values(|t: HistoryTurn| turn_view(t)) =~= before.map_values(|t: HistoryTurn| turn_view(t)).push(
                (true, m.content@),
            ));
        } else if text::str_eq(m.role.as_str(), "assistant") {
            r.push(HistoryTurn::Assistant(m.content.clone()));
            assert(r@.map_values(|t: HistoryTurn| turn_view(t)) =~= before.map_values(|t: HistoryTurn| turn_view(t)).push(
                (false, m.content@),
            ));
        }
        i = i + 1;
    }
    assert(history@.subrange(0, history@.len() as int) =~= history@);
    r
}

/// Whether a final answer is stored: only when it says something.
pub fn should_save(content: &str) -> (b: bool)
    ensures
        b == (content@.len() > 0),
{
    text::chars_of(content).len() > 0
}

} // verus!
