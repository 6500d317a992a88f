use nail_agent::mcp::{
    hash8, mcp_call_output, mcp_cancelled, namespaced_names, not_connected_message, octofs_args, octofs_enabled, octofs_candidates,
    plan_mcp_call, short_hash, split_namespaced, McpArgs, ServedTool, ToolName, ToolRouting,
};

fn tool(server: &str, name: &str) -> ToolName {
    ToolName { server: server.to_string(), name: name.to_string() }
}

fn is_lower_hex(s: &str) -> bool {
    s.chars().all(|c| c.is_ascii_digit() || ('a'..='f').contains(&c))
}

#[test]
fn hash8_is_a_stable_hex_suffix() {
    let h = hash8("fs__read");
    assert_eq!(h.len(), 8);
    assert!(is_lower_hex(&h));
    assert_eq!(h, hash8("fs__read"));
    assert_ne!(h, "fs__read");
}

#[test]
fn colliding_names_get_a_hash_suffix() {
    let names = namespaced_names(&vec![tool("fs", "read"), tool("git", "log"), tool("fs", "read")]);
    assert_eq!(names[0], "fs__read");
    assert_eq!(names[1], "git__log");
    assert_eq!(names[2], format!("fs__read__{}", hash8("fs__read")));
}

#[test]
fn namespaced_names_split_at_the_first_separator() {
    assert_eq!(split_namespaced("srv__tool__x"), Some(("srv".to_string(), "tool__x".to_string())));
    assert_eq!(split_namespaced("__x"), Some((String::new(), "x".to_string())));
    assert_eq!(split_namespaced("plain"), None);
}

#[test]
fn mcp_calls_are_planned_screened_or_refused() {
    let plan = plan_mcp_call("octofs__view", "{}", &Some(McpArgs { command: None })).expect("planned");
    assert_eq!(plan.server, "octofs");
    assert_eq!(plan.tool, "view");
    assert_eq!(plan.tool_id, "mcp-octofs__view");
    assert_eq!(plan.title, "octofs: view");
    assert_eq!(
        plan_mcp_call("octofs__shell", "{}", &Some(McpArgs { command: Some("rm -rf /".to_string()) })).err(),
        Some("拒绝：命令命中危险模式 `rm -rf /`".to_string())
    );
    // Only the shell tool's command is screened.
    assert!(plan_mcp_call("octofs__view", "{}", &Some(McpArgs { command: Some("rm -rf /".to_string()) })).is_ok());
    assert_eq!(plan_mcp_call("noseparator", "{}", &None).err(), Some("未知工具：noseparator".to_string()));
    assert_eq!(plan_mcp_call("a__b", "{x", &None).err(), Some("工具参数不是合法 JSON（a__b）：{x".to_string()));
}

#[test]
fn mcp_outcomes() {
    let ok = mcp_call_output(Ok("result".to_string()));
    assert_eq!(ok.output, "result");
    assert!(!ok.cancelled);
    assert_eq!(mcp_call_output(Err("boom".to_string())).output, "MCP 工具调用失败：boom");
    let c = mcp_cancelled();
    assert!(c.cancelled);
    assert_eq!(c.output, "调用被取消。");
    assert_eq!(not_connected_message("fs"), "MCP server fs not connected");
}

#[test]
fn octofs_is_looked_for_in_order() {
    assert_eq!(
        octofs_candidates(Some(""), Some("/opt/bin"), "/usr/bin:/bin"),
        vec!["/opt/bin/octofs".to_string(), "/usr/bin/octofs".to_string(), "/bin/octofs".to_string()]
    );
    assert_eq!(octofs_candidates(Some("/x/octofs"), None, ""), vec!["/x/octofs".to_string(), "octofs".to_string()]);
    assert_eq!(octofs_args("/w"), vec!["mcp".to_string(), "--path".to_string(), "/w".to_string()]);
}

#[test]
fn proxied_tools_are_exposed_with_a_hash_and_routed_back() {
    let h = short_hash("s1-read");
    assert_eq!(h.len(), 16);
    assert!(is_lower_hex(&h));
    assert_ne!(h, short_hash("s2-read"));
    let tools = vec![
        ServedTool { server_name: "s1".to_string(), server_idx: 0, original: "read".to_string() },
        ServedTool { server_name: "s2".to_string(), server_idx: 1, original: "read".to_string() },
    ];
    let (names, routing) = ToolRouting::build(&tools);
    assert_eq!(names[0], format!("read-{}", short_hash("s1-read")));
    assert_eq!(names[1], format!("read-{}", short_hash("s2-read")));
    assert_eq!(routing.route(&names[1], 2), Some((1, "read".to_string())));
    assert_eq!(routing.route(&names[1], 1), None);
    assert_eq!(routing.route("read", 2), None);
    assert_eq!(ToolRouting::new().route("x", 1), None);
}

#[test]
fn octofs_is_on_unless_switched_off() {
    assert!(octofs_enabled(None));
    assert!(octofs_enabled(Some("1")));
    assert!(octofs_enabled(Some("yes")));
    assert!(octofs_enabled(Some("")));
    for off in ["0", "off", "false", "no"] {
        assert!(!octofs_enabled(Some(off)));
    }
}
