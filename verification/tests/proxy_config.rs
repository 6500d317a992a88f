use nail_agent::filter::StringMap;
use nail_agent::proxy_config::{
    entry_to_config, env_var_names, resolve_env_vars, time_format, uuid_count, ConfigEntry, ServerConfig, TimeFormat,
};

fn env(pairs: &[(&str, &str)]) -> StringMap {
    let mut m = StringMap::new();
    for (k, v) in pairs {
        m.insert(k.to_string(), v.to_string());
    }
    m
}

fn entry(transport: &str) -> ConfigEntry {
    ConfigEntry {
        name: "srv".to_string(),
        transport: transport.to_string(),
        command: None,
        args: vec![],
        url: None,
        headers: vec![],
    }
}

#[test]
fn references_are_expanded_or_kept() {
    let e = env(&[("A", "1"), ("TOKEN", "t0k")]);
    assert_eq!(resolve_env_vars("x${A}y${B}z", &e), "x1y${B}z");
    assert_eq!(resolve_env_vars("Bearer ${TOKEN}", &e), "Bearer t0k");
    // An unclosed reference runs to the end and is closed when kept.
    assert_eq!(resolve_env_vars("a${UNSET", &e), "a${UNSET}");
    assert_eq!(resolve_env_vars("cost $5 {x}", &e), "cost $5 {x}");
    assert_eq!(env_var_names("x${A}y${B}z${C"), vec!["A".to_string(), "B".to_string(), "C".to_string()]);
    assert!(env_var_names("plain").is_empty());
}

#[test]
fn entries_become_connection_settings() {
    let e = env(&[("HOME", "/h")]);
    let mut stdio = entry("stdio");
    assert_eq!(entry_to_config(&stdio, &e).err(), Some("stdio transport 需要 command 字段".to_string()));
    stdio.command = Some("${HOME}/bin/srv".to_string());
    stdio.args = vec!["--root".to_string(), "${HOME}".to_string()];
    match entry_to_config(&stdio, &e) {
        Ok(ServerConfig::Stdio { name, command, args }) => {
            assert_eq!(name, "srv");
            assert_eq!(command, "/h/bin/srv");
            assert_eq!(args, vec!["--root".to_string(), "/h".to_string()]);
        },
        _ => panic!("expected a stdio server"),
    }
    let mut http = entry("http");
    assert_eq!(entry_to_config(&http, &e).err(), Some("http transport 需要 url 字段".to_string()));
    http.url = Some("https://x/${HOME}".to_string());
    http.headers = vec![("Auth".to_string(), "${KEY}".to_string())];
    match entry_to_config(&http, &e) {
        Ok(ServerConfig::Http { name, url, headers }) => {
            assert_eq!(name, "srv");
            assert_eq!(url, "https://x//h");
            assert_eq!(headers, vec![("Auth".to_string(), "${KEY}".to_string())]);
        },
        _ => panic!("expected an http server"),
    }
    assert_eq!(entry_to_config(&entry("ws"), &e).err(), Some("不支持的 transport: ws".to_string()));
}

#[test]
fn server_settings_builders() {
    let s = ServerConfig::stdio("a", "cmd", vec!["x".to_string()]);
    assert_eq!(s.name(), "a");
    let h = ServerConfig::http("b", "http://u").with_headers(vec![("k".to_string(), "v".to_string())]);
    match h {
        ServerConfig::Http { ref headers, .. } => assert_eq!(headers, &vec![("k".to_string(), "v".to_string())]),
        _ => panic!("expected http"),
    }
    assert_eq!(h.name(), "b");
    match s.with_headers(vec![("k".to_string(), "v".to_string())]) {
        ServerConfig::Stdio { args, .. } => assert_eq!(args, vec!["x".to_string()]),
        _ => panic!("stdio stays stdio"),
    }
}

#[test]
fn builtin_tool_arguments() {
    assert_eq!(uuid_count(None), 1);
    assert_eq!(uuid_count(Some(0)), 1);
    assert_eq!(uuid_count(Some(-3)), 1);
    assert_eq!(uuid_count(Some(5)), 5);
    assert_eq!(uuid_count(Some(20)), 10);
    assert_eq!(time_format(Some("date")), TimeFormat::Date);
    assert_eq!(time_format(Some("time")), TimeFormat::Time);
    assert_eq!(time_format(Some("unix")), TimeFormat::Unix);
    assert_eq!(time_format(Some("iso")), TimeFormat::Iso);
    assert_eq!(time_format(None), TimeFormat::Iso);
}
