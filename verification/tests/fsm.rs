use nail_agent::fsm::{
    effect_name, event_name, start_turn, state_name, tool_round_messages, transit, CollectedCall, Driver, Effect,
    Event, RoundMessage, State, Step, StreamCollector, StreamEnd, ToolCallDelta, TurnEnd, MAX_ITERATIONS,
};
use nail_agent::proto::PromptBlock;

type Ev = Event<String, String, String>;
type St = State<String, String>;
type Ef = Effect<String, String, String>;

fn sid(s: &St) -> Option<String> {
    match s {
        State::Idle { session_id }
        | State::ContextLoading { session_id }
        | State::ModelCalling { session_id, .. }
        | State::ModelResponseStreaming { session_id, .. }
        | State::ToolsCalling { session_id, .. } => Some(session_id.clone()),
        State::Done => None,
    }
}

#[test]
fn prompt_loads_context() {
    let (ns, ef) = transit::<String, String, String>(
        State::Idle { session_id: "s1".to_string() },
        Event::UserMessageArrived,
    )
    .unwrap();
    assert_eq!(state_name(&ns), "Preparing");
    assert_eq!(effect_name(&ef), "LoadContext");
    assert_eq!(sid(&ns), Some("s1".to_string()));
}

#[test]
fn streamed_chunks_accumulate() {
    let st: St = State::ModelResponseStreaming {
        session_id: "s".to_string(),
        messages: vec![],
        tools: vec![],
        accumulated: "Hel".to_string(),
    };
    let (ns, ef) = transit::<String, String, String>(
        st,
        Event::NextChunkOfModelResponseArrived { delta: "lo".to_string() },
    )
    .unwrap();
    match ns {
        State::ModelResponseStreaming { accumulated, .. } => assert_eq!(accumulated, "Hello"),
        _ => panic!("still streaming"),
    }
    assert!(matches!(ef, Effect::DoNothing));
}

#[test]
fn finished_answer_is_saved_and_turn_done() {
    let st: St = State::ModelResponseStreaming {
        session_id: "s".to_string(),
        messages: vec![],
        tools: vec![],
        accumulated: String::new(),
    };
    let (ns, ef) = transit::<String, String, String>(
        st,
        Event::ModelResponseFinishedWithoutToolCalls { full_content: "answer".to_string() },
    )
    .unwrap();
    assert!(matches!(ns, State::Done));
    match ef {
        Effect::SaveSession { content, session_id } => {
            assert_eq!(content, "answer");
            assert_eq!(session_id, "s");
        }
        _ => panic!("expected a save"),
    }
}

#[test]
fn done_refuses_every_event() {
    let r = transit::<String, String, String>(State::Done, Event::UserMessageArrived);
    assert_eq!(r.err(), Some("invalid state transition".to_string()));
    let r = transit::<String, String, String>(
        State::Idle { session_id: "s".to_string() },
        Event::ToolsResponseArrived { updated_messages: vec![] },
    );
    assert!(r.is_err());
}

#[test]
fn event_names_for_the_log() {
    let e: Ev = Event::UserMessageArrived;
    assert_eq!(event_name(&e), "UserPromptArrived");
    let e: Ev = Event::ToolsResponseArrived { updated_messages: vec![] };
    assert_eq!(event_name(&e), "ToolResultArrived");
    let f: Ef = Effect::CallModel { messages: vec![], tools: vec![], session_id: String::new() };
    assert_eq!(effect_name(&f), "CallLlmStream");
}

#[test]
fn driver_runs_a_turn_with_one_tool_round() {
    let mut d: Driver<String, String, String> = Driver::new("s".to_string());
    match d.step(0) {
        Step::Perform(Effect::LoadContext { session_id }) => assert_eq!(session_id, "s"),
        _ => panic!("expected LoadContext"),
    }
    d.enqueue(vec![Event::ContextLoaded { messages: vec!["m".to_string()], tools: vec!["t".to_string()] }]);
    assert!(matches!(d.step(0), Step::Perform(Effect::CallModel { .. })));
    d.enqueue(vec![
        Event::FirstChunkOfModelResponseArrived { delta: String::new() },
        Event::ModelResponseFinishedWithToolCalls { tool_calls: vec!["c".to_string()] },
    ]);
    assert!(matches!(d.step(0), Step::Continue));
    match d.step(0) {
        Step::Perform(Effect::CallTools { tool_calls, .. }) => assert_eq!(tool_calls, vec!["c".to_string()]),
        _ => panic!("expected CallTools"),
    }
    d.enqueue(vec![Event::ToolsResponseArrived { updated_messages: vec!["m".to_string(), "r".to_string()] }]);
    assert!(matches!(d.step(0), Step::Perform(Effect::CallModel { .. })));
    assert_eq!(d.iterations, 1);
    d.enqueue(vec![
        Event::FirstChunkOfModelResponseArrived { delta: "ok".to_string() },
        Event::ModelResponseFinishedWithoutToolCalls { full_content: "ok".to_string() },
    ]);
    assert!(matches!(d.step(0), Step::Continue));
    match d.step(0) {
        Step::FinishAfter(Effect::SaveSession { content, .. }) => assert_eq!(content, "ok"),
        _ => panic!("expected a final save"),
    }
    assert!(matches!(d.state, State::Done));
    assert!(matches!(d.step(0), Step::Finished));
}

#[test]
fn driver_stops_after_the_time_limit() {
    let mut d: Driver<String, String, String> = Driver::new("s".to_string());
    assert!(matches!(d.step(120_001), Step::Finished));
    assert_eq!(d.queue.len(), 0);
}

#[test]
fn driver_stops_past_the_iteration_limit() {
    let mut d: Driver<String, String, String> = Driver {
        state: State::ToolsCalling { session_id: "s".to_string(), tools: vec![] },
        queue: vec![Event::ToolsResponseArrived { updated_messages: vec![] }],
        iterations: MAX_ITERATIONS,
    };
    assert!(matches!(d.step(0), Step::Finished));
    assert_eq!(d.iterations, MAX_ITERATIONS + 1);
}

#[test]
fn collector_text_only_answer() {
    let mut c = StreamCollector::new();
    let e1: Option<Ev> = c.on_text("Hel");
    assert!(matches!(e1, Some(Event::FirstChunkOfModelResponseArrived { .. })));
    let e2: Option<Ev> = c.on_text("");
    assert!(e2.is_none());
    let e3: Option<Ev> = c.on_text("lo");
    match e3 {
        Some(Event::NextChunkOfModelResponseArrived { delta }) => assert_eq!(delta, "lo"),
        _ => panic!("expected a next chunk"),
    }
    match c.finish() {
        StreamEnd::Text(t) => assert_eq!(t, "Hello"),
        _ => panic!("expected text"),
    }
}

#[test]
fn collector_joins_tool_call_fragments() {
    let mut c = StreamCollector::new();
    c.on_tool_delta(&ToolCallDelta {
        index: 0,
        id: Some("call_1".to_string()),
        name: Some("sh".to_string()),
        arguments: Some("{\"a\":".to_string()),
    });
    c.on_tool_delta(&ToolCallDelta { index: 1, id: None, name: Some("x".to_string()), arguments: None });
    c.on_tool_delta(&ToolCallDelta { index: 0, id: None, name: Some("ell".to_string()), arguments: Some("1}".to_string()) });
    match c.finish() {
        StreamEnd::ToolCalls(cs) => {
            assert_eq!(cs.len(), 1);
            assert_eq!(cs[0].id, "call_1");
            assert_eq!(cs[0].name, "shell");
            assert_eq!(cs[0].arguments, "{\"a\":1}");
        }
        _ => panic!("expected tool calls"),
    }
}

type Dr = Driver<String, String, String>;

#[test]
fn an_empty_prompt_starts_no_turn() {
    let none: Option<(Dr, String)> = start_turn(&vec![], "s".to_string());
    assert!(none.is_none());
    let only_links: Option<(Dr, String)> =
        start_turn(&vec![PromptBlock::ResourceLink("file:///a".to_string()), PromptBlock::Other], "s".to_string());
    assert!(only_links.is_none());
    let one_empty: Option<(Dr, String)> = start_turn(&vec![PromptBlock::Text(String::new())], "s".to_string());
    assert!(one_empty.is_none());
}

#[test]
fn a_prompt_starts_a_turn_with_its_text_blocks_joined() {
    let blocks = vec![
        PromptBlock::Text("hello".to_string()),
        PromptBlock::ResourceLink("file:///a".to_string()),
        PromptBlock::Text("world".to_string()),
    ];
    let (d, message): (Dr, String) = start_turn(&blocks, "s".to_string()).expect("a turn");
    assert_eq!(message, "hello\nworld");
    assert!(matches!(&d.state, State::Idle { session_id } if session_id == "s"));
    assert_eq!(d.queue.len(), 1);
    assert_eq!(d.iterations, 0);
    let two_empty: Option<(Dr, String)> =
        start_turn(&vec![PromptBlock::Text(String::new()), PromptBlock::Text(String::new())], "s".to_string());
    assert_eq!(two_empty.expect("a turn").1, "\n");
}

#[test]
fn a_turn_whose_effects_succeed_ends_with_end_turn() {
    let mut d: Dr = Driver::new("s".to_string());
    let replies: Vec<Result<Vec<Ev>, String>> = vec![
        Ok(vec![Event::ContextLoaded { messages: vec!["m".to_string()], tools: vec![] }]),
        Ok(vec![
            Event::FirstChunkOfModelResponseArrived { delta: "o".to_string() },
            Event::ModelResponseFinishedWithToolCalls { tool_calls: vec!["c".to_string()] },
        ]),
        Ok(vec![Event::ToolsResponseArrived { updated_messages: vec!["m".to_string(), "r".to_string()] }]),
        Ok(vec![
            Event::FirstChunkOfModelResponseArrived { delta: "ok".to_string() },
            Event::ModelResponseFinishedWithoutToolCalls { full_content: "ok".to_string() },
        ]),
    ];
    let (end, used) = d.run(replies, 0);
    assert_eq!(used, 4);
    match end {
        TurnEnd::EndTurn(Some(Effect::SaveSession { content, session_id })) => {
            assert_eq!(content, "ok");
            assert_eq!(session_id, "s");
        }
        _ => panic!("expected EndTurn with the final save"),
    }
    assert_eq!(d.iterations, 1);
}

#[test]
fn a_failed_effect_fails_the_turn() {
    let mut d: Dr = Driver::new("s".to_string());
    let replies: Vec<Result<Vec<Ev>, String>> = vec![Err("db down".to_string()), Ok(vec![])];
    let (end, used) = d.run(replies, 0);
    assert_eq!(used, 1);
    assert!(matches!(end, TurnEnd::Failed(m) if m == "db down"));
}

#[test]
fn a_run_without_replies_hands_out_the_next_effect() {
    let mut d: Dr = Driver::new("s".to_string());
    let (end, used) = d.run(vec![], 0);
    assert_eq!(used, 0);
    assert!(matches!(end, TurnEnd::Pending(Effect::LoadContext { .. })));
    d.enqueue(vec![Event::ContextLoaded { messages: vec![], tools: vec![] }]);
    let (end, _) = d.run(vec![], 0);
    assert!(matches!(end, TurnEnd::Pending(Effect::CallModel { .. })));
}

#[test]
fn a_turn_ends_after_too_many_tool_rounds() {
    let mut d: Dr = Driver::new("s".to_string());
    let mut replies: Vec<Result<Vec<Ev>, String>> =
        vec![Ok(vec![Event::ContextLoaded { messages: vec![], tools: vec![] }])];
    for _ in 0..40 {
        replies.push(Ok(vec![
            Event::FirstChunkOfModelResponseArrived { delta: String::new() },
            Event::ModelResponseFinishedWithToolCalls { tool_calls: vec!["c".to_string()] },
        ]));
        replies.push(Ok(vec![Event::ToolsResponseArrived { updated_messages: vec![] }]));
    }
    let (end, used) = d.run(replies, 0);
    assert!(matches!(end, TurnEnd::EndTurn(None)));
    assert_eq!(d.iterations, MAX_ITERATIONS + 1);
    assert_eq!(used, 1 + 2 * (MAX_ITERATIONS + 1));
}

#[test]
fn a_turn_past_the_time_limit_ends_with_end_turn() {
    let mut d: Dr = Driver::new("s".to_string());
    let (end, used) = d.run(vec![Ok(vec![])], 120_001);
    assert!(matches!(end, TurnEnd::EndTurn(None)));
    assert_eq!(used, 0);
}

#[test]
fn a_tool_round_adds_the_calls_and_one_result_each() {
    let calls = vec![
        CollectedCall { id: "c1".to_string(), name: "read".to_string(), arguments: "{}".to_string() },
        CollectedCall { id: "c2".to_string(), name: "run".to_string(), arguments: "{\"x\":1}".to_string() },
    ];
    let outcomes = vec![Ok("file body".to_string()), Err("Transport(closed)".to_string())];
    let msgs = tool_round_messages(&calls, &outcomes);
    assert_eq!(msgs.len(), 3);
    match &msgs[0] {
        RoundMessage::AssistantCalls(cs) => {
            assert_eq!(cs.len(), 2);
            assert_eq!(cs[1].id, "c2");
            assert_eq!(cs[1].arguments, "{\"x\":1}");
        }
        _ => panic!("expected the assistant's calls first"),
    }
    match &msgs[1] {
        RoundMessage::ToolResult { call_id, content, failed } => {
            assert_eq!(call_id, "c1");
            assert_eq!(content, "file body");
            assert!(!failed);
        }
        _ => panic!("expected a tool result"),
    }
    match &msgs[2] {
        RoundMessage::ToolResult { call_id, content, failed } => {
            assert_eq!(call_id, "c2");
            assert_eq!(content, "tool call failed: Transport(closed)");
            assert!(*failed);
        }
        _ => panic!("expected a tool result"),
    }
}
