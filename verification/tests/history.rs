use nail_agent::history::{history_turns, should_save, HistoryTurn, SingleMessage};

fn msg(role: &str, content: &str) -> SingleMessage {
    SingleMessage { id: "id".to_string(), role: role.to_string(), content: content.to_string() }
}

#[test]
fn history_keeps_user_and_assistant_messages_in_order() {
    let h = vec![msg("user", "Hello"), msg("system", "ignored"), msg("assistant", "Hi there!"), msg("user", "Hey")];
    let turns = history_turns(&h);
    assert_eq!(turns.len(), 3);
    assert!(matches!(&turns[0], HistoryTurn::User(t) if t == "Hello"));
    assert!(matches!(&turns[1], HistoryTurn::Assistant(t) if t == "Hi there!"));
    assert!(matches!(&turns[2], HistoryTurn::User(t) if t == "Hey"));
}

#[test]
fn only_non_empty_answers_are_saved() {
    assert!(should_save("answer"));
    assert!(!should_save(""));
}
