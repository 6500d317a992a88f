use nail_agent::llm::{
    available_modes, count_setting, home_dir, legacy_key_file, missing_key_message, model_for_mode,
    modes_from_config, nail_key_file, AgentConfig, LlmConfig, ModelMode, ToolCallSlots, Usage,
};

fn triples(v: &[ModelMode]) -> Vec<(&str, &str, &str)> {
    v.iter().map(|m| (m.id.as_str(), m.name.as_str(), m.description.as_str())).collect()
}

#[test]
fn modes_are_listed_in_order() {
    let modes = available_modes();
    let ids: Vec<&str> = modes.iter().map(|m| m.id.as_str()).collect();
    assert_eq!(ids, vec!["qwen3.7-flash", "deepseek-v4-flash", "qwen3-coder-flash"]);
    assert_eq!(modes[1].name, "DeepSeek V4 Flash");
    assert!(modes.iter().all(|m| m.context_window.is_none()));
}

#[test]
fn mode_lookup() {
    let modes = available_modes();
    assert_eq!(model_for_mode(&modes, "qwen3-coder-flash").as_deref(), Some("qwen3-coder-flash"));
    assert_eq!(model_for_mode(&modes, "gpt-4"), None);
    assert_eq!(model_for_mode(&modes, ""), None);
}

#[test]
fn configured_modes_replace_the_built_in_ones() {
    let modes = modes_from_config(Some("gpt-4o|GPT-4o|Default|128000,gpt-4o-mini|GPT-4o mini|Cheap|128000"));
    assert_eq!(triples(&modes), vec![("gpt-4o", "GPT-4o", "Default"), ("gpt-4o-mini", "GPT-4o mini", "Cheap")]);
    assert_eq!(modes[0].context_window, Some(128000));
    assert_eq!(modes[1].context_window, Some(128000));
    assert_eq!(model_for_mode(&modes, "gpt-4o-mini").as_deref(), Some("gpt-4o-mini"));
    assert_eq!(model_for_mode(&modes, "qwen3.7-flash"), None);
}

#[test]
fn configured_mode_fields_are_trimmed_and_context_is_optional() {
    let modes = modes_from_config(Some(" a | Model A | first , b|B|second|lots, c|C|third|99999999999999999999999"));
    assert_eq!(triples(&modes), vec![("a", "Model A", "first"), ("b", "B", "second"), ("c", "C", "third")]);
    assert_eq!(modes[0].context_window, None);
    assert_eq!(modes[1].context_window, None);
    assert_eq!(modes[2].context_window, None);
}

#[test]
fn entries_that_are_not_modes_are_skipped() {
    let modes = modes_from_config(Some("only|two,|no id|here,x|X|kept|42,,"));
    assert_eq!(triples(&modes), vec![("x", "X", "kept")]);
    assert_eq!(modes[0].context_window, Some(42));
}

#[test]
fn absent_or_useless_config_gives_the_built_in_modes() {
    let builtin = available_modes();
    assert_eq!(triples(&modes_from_config(None)), triples(&builtin));
    assert_eq!(triples(&modes_from_config(Some(""))), triples(&builtin));
    assert_eq!(triples(&modes_from_config(Some("a|b"))), triples(&builtin));
}

#[test]
fn default_model_is_the_first_configured_mode() {
    let modes = modes_from_config(Some("gpt-4o|GPT-4o|Default|128000,gpt-4o-mini|GPT-4o mini|Cheap|128000"));
    let c = LlmConfig::from_sources(&Some("k".to_string()), &None, &None, &None, &None, &modes).unwrap();
    assert_eq!(c.model, "gpt-4o");
    let c = LlmConfig::from_sources(&Some("k".to_string()), &None, &None, &None, &Some("other".to_string()), &modes)
        .unwrap();
    assert_eq!(c.model, "other");
}

#[test]
fn count_settings_fall_back_to_the_default() {
    assert_eq!(count_setting(None, 8), 8);
    assert_eq!(count_setting(Some("12"), 8), 12);
    assert_eq!(count_setting(Some(" 3 "), 8), 3);
    assert_eq!(count_setting(Some("0"), 8), 0);
    assert_eq!(count_setting(Some("many"), 100), 100);
    assert_eq!(count_setting(Some(""), 100), 100);
    assert_eq!(count_setting(Some("-4"), 100), 100);
    assert_eq!(count_setting(Some("99999999999999999999999"), 100), 100);
}

#[test]
fn key_from_environment_wins() {
    let c = LlmConfig::from_sources(
        &Some("env-key".to_string()),
        &Some("file-key".to_string()),
        &None,
        &None,
        &None,
        &available_modes(),
    )
    .unwrap();
    assert_eq!(c.api_key, "env-key");
    assert_eq!(c.model, "qwen3.7-flash");
    assert_eq!(
        c.base_url,
        "https://ws-dh0kie08xivrnzho.cn-beijing.maas.aliyuncs.com/compatible-mode/v1"
    );
}

#[test]
fn key_file_is_trimmed_and_empty_settings_ignored() {
    let c = LlmConfig::from_sources(
        &Some(String::new()),
        &Some("  \n".to_string()),
        &Some("  legacy \n".to_string()),
        &Some("http://localhost:8080/v1".to_string()),
        &Some(String::new()),
        &available_modes(),
    )
    .unwrap();
    assert_eq!(c.api_key, "legacy");
    assert_eq!(c.base_url, "http://localhost:8080/v1");
    assert_eq!(c.model, "qwen3.7-flash");
}

#[test]
fn no_key_no_config() {
    assert!(LlmConfig::from_sources(&None, &None, &Some("   ".to_string()), &None, &None, &available_modes()).is_none());
}

#[test]
fn with_model_keeps_current_on_empty() {
    let c = LlmConfig::from_sources(&Some("k".to_string()), &None, &None, &None, &None, &available_modes()).unwrap();
    let c = c.with_model("");
    assert_eq!(c.model, "qwen3.7-flash");
    let c = c.with_model("deepseek-v4-flash");
    assert_eq!(c.model, "deepseek-v4-flash");
    assert_eq!(c.api_key, "k");
}

#[test]
fn key_file_locations() {
    assert_eq!(home_dir(None), "/tmp");
    assert_eq!(home_dir(Some("/home/u")), "/home/u");
    assert_eq!(nail_key_file(None, "/home/u"), "/home/u/.config/nail-agent/api_key");
    assert_eq!(nail_key_file(Some("/k"), "/home/u"), "/k");
    assert_eq!(legacy_key_file("/home/u"), "/home/u/.config/zacp/api_key");
    assert_eq!(
        missing_key_message("/k"),
        "没有找到 API Key：设置环境变量 NAIL_API_KEY，或把 key 写入 /k（chmod 600）"
    );
}

#[test]
fn agent_config_reports_first_missing_variable() {
    assert_eq!(
        AgentConfig::from_vars(None, Some("k".to_string()), Some("m".to_string())).err(),
        Some("missing BASE_URL environment variable".to_string())
    );
    assert_eq!(
        AgentConfig::from_vars(Some("u".to_string()), None, None).err(),
        Some("missing API_KEY environment variable".to_string())
    );
    assert_eq!(
        AgentConfig::from_vars(Some("u".to_string()), Some("k".to_string()), None).err(),
        Some("missing MODEL_NAME environment variable".to_string())
    );
    let c = AgentConfig::from_vars(Some("u".to_string()), Some("k".to_string()), Some("m".to_string())).unwrap();
    assert_eq!((c.base_url.as_str(), c.api_key.as_str(), c.model_name.as_str()), ("u", "k", "m"));
}

#[test]
fn usage_adds_up() {
    let mut u = Usage::zero();
    u.add(Usage { input: 10, output: 3 });
    u.add(Usage { input: 5, output: 2 });
    assert_eq!(u, Usage { input: 15, output: 5 });
    assert_eq!(u.total(), 20);
}

#[test]
fn tool_call_slots_assemble_fragments() {
    let mut s = ToolCallSlots::new();
    s.add(1, Some("b".to_string()), Some("wri".to_string()), Some("{".to_string()));
    s.add(0, Some("a".to_string()), Some("read".to_string()), Some("{}".to_string()));
    s.add(1, None, Some("te".to_string()), Some("}".to_string()));
    s.add(2, None, Some("orphan".to_string()), None);
    let calls = s.finish();
    let got: Vec<(String, String, String)> =
        calls.into_iter().map(|c| (c.id, c.name, c.arguments)).collect();
    assert_eq!(
        got,
        vec![
            ("a".to_string(), "read".to_string(), "{}".to_string()),
            ("b".to_string(), "write".to_string(), "{}".to_string()),
        ]
    );
}
