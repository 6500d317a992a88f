use nail_agent::llm::Usage;
use nail_agent::sessions::{SessionState, Sessions, StoredSession, MAX_TRANSCRIPT};

fn registry() -> Sessions<String, String> {
    Sessions::new()
}

fn state_of(reg: &Sessions<String, String>, id: &str) -> SessionState {
    let i = reg.ids.iter().position(|k| k == id).expect("session exists");
    reg.sessions[i].state
}

fn turns_of(reg: &Sessions<String, String>, id: &str) -> u32 {
    let i = reg.ids.iter().position(|k| k == id).expect("session exists");
    reg.sessions[i].turn_count
}

#[test]
fn created_sessions_are_numbered_and_start_created() {
    let mut reg = registry();
    let a = reg.create("/work".to_string(), vec![], 10);
    let b = reg.create("/other".to_string(), vec!["fs".to_string()], 11);
    assert_eq!(a, "nail-1");
    assert_eq!(b, "nail-2");
    assert!(reg.session_exists("nail-1"));
    assert!(!reg.session_exists("nail-3"));
    assert_eq!(state_of(&reg, "nail-1"), SessionState::Created);
    assert_eq!(reg.cwd_of("nail-2").as_deref(), Some("/other"));
    assert_eq!(reg.mode_of("nail-1").as_deref(), Some("qwen3.7-flash"));
    assert_eq!(reg.mcp_servers_of("nail-2"), Some(vec!["fs".to_string()]));
    assert_eq!(reg.transcript_of("nail-1"), Some(vec![]));
    assert_eq!(reg.cwd_of("nail-9"), None);
}

#[test]
fn removing_a_session_forgets_only_it() {
    let mut reg = registry();
    reg.create("/a".to_string(), vec![], 1);
    reg.create("/b".to_string(), vec![], 1);
    assert!(reg.remove("nail-1"));
    assert!(!reg.remove("nail-1"));
    assert!(!reg.session_exists("nail-1"));
    assert_eq!(reg.cwd_of("nail-2").as_deref(), Some("/b"));
}

#[test]
fn mode_and_servers_change_only_for_known_sessions() {
    let mut reg = registry();
    reg.create("/a".to_string(), vec![], 1);
    assert!(reg.set_mode("nail-1", "deepseek-v4-flash", 5));
    assert_eq!(reg.mode_of("nail-1").as_deref(), Some("deepseek-v4-flash"));
    assert!(!reg.set_mode("nope", "x", 5));
    assert!(reg.set_mcp_servers("nail-1", vec!["git".to_string()]));
    assert_eq!(reg.mcp_servers_of("nail-1"), Some(vec!["git".to_string()]));
    assert!(!reg.set_mcp_servers("nope", vec![]));
}

#[test]
fn allow_always_is_remembered_per_session_once() {
    let mut reg = registry();
    reg.create("/a".to_string(), vec![], 1);
    reg.create("/b".to_string(), vec![], 1);
    assert!(!reg.is_always_allowed("nail-1", "run"));
    reg.remember_allow_always("nail-1", "run");
    reg.remember_allow_always("nail-1", "run");
    assert!(reg.is_always_allowed("nail-1", "run"));
    assert!(!reg.is_always_allowed("nail-1", "write"));
    assert!(!reg.is_always_allowed("nail-2", "run"));
    assert_eq!(reg.sessions[0].always_allowed.len(), 1);
    reg.remember_allow_always("missing", "run");
    assert!(!reg.is_always_allowed("missing", "run"));
}

#[test]
fn saved_transcript_keeps_the_last_hundred_messages() {
    let mut reg = registry();
    reg.create("/a".to_string(), vec![], 1);
    reg.remember_allow_always("nail-1", "read");
    let transcript: Vec<String> = (0..105).map(|i| format!("m{i}")).collect();
    let stored = reg.save_transcript("nail-1", transcript, 7).expect("known session");
    assert_eq!(stored.transcript.len(), MAX_TRANSCRIPT);
    assert_eq!(stored.transcript[0], "m5");
    assert_eq!(stored.transcript[99], "m104");
    assert_eq!(stored.cwd, "/a");
    assert_eq!(stored.mode, "qwen3.7-flash");
    assert_eq!(stored.always_allowed, vec!["read".to_string()]);
    assert_eq!(reg.transcript_of("nail-1").expect("known").len(), 100);
    assert!(reg.save_transcript("nope", vec![], 7).is_none());
}

#[test]
fn short_transcript_is_saved_whole() {
    let mut reg = registry();
    reg.create("/a".to_string(), vec![], 1);
    let stored = reg.save_transcript("nail-1", vec!["hi".to_string(), "yo".to_string()], 2).expect("known");
    assert_eq!(stored.transcript, vec!["hi".to_string(), "yo".to_string()]);
}

#[test]
fn restore_brings_back_a_stored_session() {
    let mut reg = registry();
    let stored = StoredSession {
        cwd: "/p".to_string(),
        mode: "qwen3-coder-flash".to_string(),
        transcript: vec!["hello".to_string()],
        always_allowed: vec!["run".to_string()],
    };
    assert!(!reg.restore("s9", None, 3));
    assert!(!reg.session_exists("s9"));
    assert!(reg.restore("s9", Some(stored), 3));
    assert_eq!(state_of(&reg, "s9"), SessionState::Created);
    assert_eq!(reg.cwd_of("s9").as_deref(), Some("/p"));
    assert_eq!(reg.mode_of("s9").as_deref(), Some("qwen3-coder-flash"));
    assert_eq!(reg.transcript_of("s9"), Some(vec!["hello".to_string()]));
    assert!(reg.is_always_allowed("s9", "run"));
    assert_eq!(reg.mcp_servers_of("s9"), Some(vec![]));
    // A live session resumes as it is.
    assert!(reg.restore("s9", None, 4));
    assert_eq!(reg.mode_of("s9").as_deref(), Some("qwen3-coder-flash"));
}

#[test]
fn turn_lifecycle_states_and_counts() {
    let mut reg = registry();
    reg.create("/a".to_string(), vec![], 1);
    assert!(reg.set_state("nail-1", SessionState::Active, 2));
    assert_eq!(state_of(&reg, "nail-1"), SessionState::Active);
    assert!(reg.bump_turn("nail-1", 3));
    assert!(reg.bump_turn("nail-1", 4));
    assert_eq!(turns_of(&reg, "nail-1"), 2);
    assert!(reg.cancel("nail-1", 5));
    assert_eq!(state_of(&reg, "nail-1"), SessionState::Cancelled);
    assert!(!reg.cancel("nope", 5));
    assert!(!reg.bump_turn("nope", 5));
    assert!(!reg.set_state("nope", SessionState::Failed, 5));
}

#[test]
fn usage_accumulates_per_session() {
    let mut reg = registry();
    reg.create("/a".to_string(), vec![], 1);
    let first = reg.add_usage("nail-1", Usage { input: 1, output: 2 });
    assert_eq!(first, Some(Usage { input: 1, output: 2 }));
    let second = reg.add_usage("nail-1", Usage { input: 3, output: 4 }).expect("known");
    assert_eq!(second, Usage { input: 4, output: 6 });
    assert_eq!(second.total(), 10);
    assert_eq!(reg.add_usage("nope", Usage { input: 1, output: 1 }), None);
}

#[test]
fn default_session_state_is_created() {
    assert_eq!(SessionState::default(), SessionState::Created);
}

#[test]
fn registry_settings_choose_the_start_mode_and_the_cap() {
    let mut reg: Sessions<String, String> = Sessions::with_settings("gpt-4o".to_string(), 3);
    let id = reg.create("/w".to_string(), vec![], 1);
    assert_eq!(reg.mode_of(&id).as_deref(), Some("gpt-4o"));
    let transcript: Vec<String> = (0..5).map(|i| format!("m{i}")).collect();
    let stored = reg.save_transcript(&id, transcript, 2).expect("known session");
    assert_eq!(stored.transcript, vec!["m2".to_string(), "m3".to_string(), "m4".to_string()]);
    let fresh: Sessions<String, String> = Sessions::new();
    assert_eq!(fresh.max_transcript, MAX_TRANSCRIPT);
    assert_eq!(fresh.default_mode, "qwen3.7-flash");
}
