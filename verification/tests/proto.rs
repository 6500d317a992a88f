use nail_agent::llm::{available_modes, modes_from_config, Usage};
use nail_agent::proto::{
    begin_turn, check_auth_method, check_prompt, end_turn, handle_resume, handle_set_mode, message_text,
    prompt_text, replay, route_call, stop_after_report, stream_chunks, CallRoute, ChatAction, ChatLoop,
    PromptBlock, ReplayMessage, RoundResult, StopKind, MAX_TOOL_TURNS,
};
use nail_agent::sessions::{SessionState, Sessions, StoredSession};

#[test]
fn prompt_text_joins_text_and_links() {
    let blocks = vec![
        PromptBlock::Text("hello".to_string()),
        PromptBlock::Other,
        PromptBlock::ResourceLink("file:///a.rs".to_string()),
    ];
    assert_eq!(prompt_text(&blocks), "hello\nfile:///a.rs");
    // A leading empty text writes nothing, so no newline follows it.
    let blocks = vec![PromptBlock::Text(String::new()), PromptBlock::Text("x".to_string())];
    assert_eq!(prompt_text(&blocks), "x");
    assert_eq!(prompt_text(&vec![]), "");
}

#[test]
fn replay_keeps_user_and_assistant_text_only() {
    let transcript = vec![
        ReplayMessage::User(vec!["hi".to_string(), "there".to_string()]),
        ReplayMessage::Other,
        ReplayMessage::Assistant(None),
        ReplayMessage::Assistant(Some(vec!["answer".to_string()])),
        ReplayMessage::User(vec![]),
    ];
    let shown = replay(&transcript);
    assert_eq!(shown, vec![(true, "hi\nthere".to_string()), (false, "answer".to_string())]);
    assert_eq!(message_text(&ReplayMessage::User(vec![String::new()])), None);
}

#[test]
fn text_streams_in_line_or_byte_sized_chunks() {
    assert_eq!(stream_chunks("hello\nworld"), vec!["hello\n".to_string(), "world".to_string()]);
    let long = "a".repeat(30);
    assert_eq!(stream_chunks(&long), vec!["a".repeat(24), "a".repeat(6)]);
    // Eight three-byte characters fill a chunk.
    let wide = "汉".repeat(9);
    assert_eq!(stream_chunks(&wide), vec!["汉".repeat(8), "汉".to_string()]);
    assert!(stream_chunks("").is_empty());
}

#[test]
fn tools_route_by_name() {
    assert_eq!(route_call("run"), CallRoute::Local);
    assert_eq!(route_call("read"), CallRoute::Local);
    assert_eq!(route_call("write"), CallRoute::Local);
    assert_eq!(route_call("octofs__view"), CallRoute::Mcp);
}

#[test]
fn chat_loop_finishes_on_text_and_counts_usage() {
    let mut chat = ChatLoop::new();
    assert!(chat.may_ask());
    let action = chat.on_round(RoundResult::TextDone { usage: Usage { input: 5, output: 7 }, reply: "done".to_string() });
    match action {
        ChatAction::Finish { stop, reply } => {
            assert_eq!(stop, StopKind::EndTurn);
            assert_eq!(reply.as_deref(), Some("done"));
        },
        _ => panic!("expected finish"),
    }
    assert_eq!(chat.usage, Usage { input: 5, output: 7 });
    assert_eq!(chat.rounds, 1);
}

#[test]
fn chat_loop_runs_tools_then_asks_again_until_the_limit() {
    let mut chat = ChatLoop::new();
    for _ in 0..MAX_TOOL_TURNS {
        let action = chat.on_round(RoundResult::ToolCalls {
            usage: Usage { input: 1, output: 1 },
            names: vec!["run".to_string(), "fs__view".to_string()],
        });
        match action {
            ChatAction::RunTools(routes) => assert_eq!(routes, vec![CallRoute::Local, CallRoute::Mcp]),
            _ => panic!("expected tools"),
        }
        let next = chat.after_tools(false);
        if chat.rounds < MAX_TOOL_TURNS {
            assert!(matches!(next, ChatAction::NextRound));
        } else {
            match next {
                ChatAction::Report(t) => assert_eq!(t, "（工具调用轮数已达上限，本轮结束）"),
                _ => panic!("expected the limit notice"),
            }
        }
    }
    assert!(!chat.may_ask());
    assert_eq!(chat.usage, Usage { input: 8, output: 8 });
}

#[test]
fn chat_loop_stops_on_cancel_and_reports_errors() {
    let mut chat = ChatLoop::new();
    assert!(matches!(chat.after_tools(true), ChatAction::Finish { stop: StopKind::Cancelled, reply: None }));
    match chat.on_round(RoundResult::Error("boom".to_string())) {
        ChatAction::Report(t) => assert_eq!(t, "boom"),
        _ => panic!("expected report"),
    }
    assert!(matches!(chat.on_round(RoundResult::Cancelled), ChatAction::Finish { stop: StopKind::Cancelled, .. }));
    let empty = chat.on_round(RoundResult::TextDone { usage: Usage { input: 0, output: 0 }, reply: String::new() });
    assert!(matches!(empty, ChatAction::Finish { stop: StopKind::EndTurn, reply: None }));
    assert_eq!(stop_after_report(true), StopKind::EndTurn);
    assert_eq!(stop_after_report(false), StopKind::Cancelled);
}

#[test]
fn handlers_refuse_unknown_sessions_and_modes() {
    let mut reg: Sessions<String, String> = Sessions::new();
    let id = reg.create("/w".to_string(), vec![], 1);
    assert_eq!(check_auth_method("api-key"), Ok(()));
    assert_eq!(check_auth_method("oauth"), Err("unknown auth method oauth".to_string()));
    assert_eq!(check_prompt(&reg, &id), Ok(()));
    assert_eq!(check_prompt(&reg, "nope"), Err("unknown session nope".to_string()));
    let modes = available_modes();
    assert_eq!(handle_set_mode(&mut reg, &modes, "nope", "qwen3.7-flash", 2), Err("unknown session nope".to_string()));
    assert_eq!(handle_set_mode(&mut reg, &modes, &id, "gpt-9", 2), Err("unknown mode gpt-9".to_string()));
    assert_eq!(reg.mode_of(&id).as_deref(), Some("qwen3.7-flash"));
    assert_eq!(handle_set_mode(&mut reg, &modes, &id, "deepseek-v4-flash", 2), Ok(()));
    assert_eq!(reg.mode_of(&id).as_deref(), Some("deepseek-v4-flash"));
}

#[test]
fn set_mode_follows_the_configured_modes() {
    let modes = modes_from_config(Some("gpt-4o|GPT-4o|Default|128000,gpt-4o-mini|GPT-4o mini|Cheap|128000"));
    let mut reg: Sessions<String, String> = Sessions::with_settings(modes[0].id.clone(), 100);
    let id = reg.create("/w".to_string(), vec![], 1);
    assert_eq!(reg.mode_of(&id).as_deref(), Some("gpt-4o"));
    assert_eq!(handle_set_mode(&mut reg, &modes, &id, "deepseek-v4-flash", 2), Err("unknown mode deepseek-v4-flash".to_string()));
    assert_eq!(handle_set_mode(&mut reg, &modes, &id, "gpt-4o-mini", 2), Ok(()));
    let (model, _) = begin_turn(&mut reg, &id, 3).expect("known session");
    assert_eq!(model, "gpt-4o-mini");
}

#[test]
fn round_limit_is_configurable() {
    let mut chat = ChatLoop::with_limit(1);
    assert!(chat.may_ask());
    let names = vec!["run".to_string()];
    assert!(matches!(chat.on_round(RoundResult::ToolCalls { usage: Usage { input: 1, output: 1 }, names }), ChatAction::RunTools(_)));
    assert!(!chat.may_ask());
    match chat.after_tools(false) {
        ChatAction::Report(t) => assert_eq!(t, "（工具调用轮数已达上限，本轮结束）"),
        _ => panic!("expected the round limit notice"),
    }
    let none = ChatLoop::with_limit(0);
    assert!(!none.may_ask());
}

#[test]
fn end_turn_keeps_the_configured_number_of_messages() {
    let mut reg: Sessions<String, String> = Sessions::with_settings("m".to_string(), 2);
    let id = reg.create("/w".to_string(), vec![], 1);
    begin_turn(&mut reg, &id, 2);
    let t = vec!["a".to_string(), "b".to_string(), "c".to_string()];
    let stored = end_turn(&mut reg, &id, t, StopKind::EndTurn, 3).expect("known");
    assert_eq!(stored.transcript, vec!["b".to_string(), "c".to_string()]);
    assert_eq!(reg.transcript_of(&id), Some(vec!["b".to_string(), "c".to_string()]));
}

#[test]
fn resume_takes_fresh_servers() {
    let mut reg: Sessions<String, String> = Sessions::new();
    assert_eq!(handle_resume(&mut reg, "old", None, vec![], 1), Err("unknown session old".to_string()));
    let stored = StoredSession {
        cwd: "/p".to_string(),
        mode: "qwen3.7-flash".to_string(),
        transcript: vec![],
        always_allowed: vec![],
    };
    assert_eq!(handle_resume(&mut reg, "old", Some(stored), vec!["fs".to_string()], 2), Ok(()));
    assert_eq!(reg.mcp_servers_of("old"), Some(vec!["fs".to_string()]));
}

#[test]
fn a_turn_starts_active_and_ends_by_its_stop() {
    let mut reg: Sessions<String, String> = Sessions::new();
    let id = reg.create("/w".to_string(), vec![], 1);
    let (model, transcript) = begin_turn(&mut reg, &id, 2).expect("known session");
    assert_eq!(model, "qwen3.7-flash");
    assert!(transcript.is_empty());
    let i = reg.ids.iter().position(|k| *k == id).expect("present");
    assert_eq!(reg.sessions[i].state, SessionState::Active);
    let stored = end_turn(&mut reg, &id, vec!["q".to_string(), "a".to_string()], StopKind::EndTurn, 3).expect("known");
    assert_eq!(stored.transcript, vec!["q".to_string(), "a".to_string()]);
    assert_eq!(reg.sessions[i].state, SessionState::Completed);
    assert_eq!(reg.sessions[i].turn_count, 1);
    end_turn(&mut reg, &id, vec![], StopKind::Cancelled, 4);
    assert_eq!(reg.sessions[i].state, SessionState::Cancelled);
    assert!(begin_turn(&mut reg, "nope", 5).is_none());
}
