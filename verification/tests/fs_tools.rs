use nail_agent::fs_tools::{
    background_report, command_param, detect_shell_misuse, finish_shell, get_session_root_directory,
    kill_all_shell_children, lock_key_for, parse_line_mode, register_child, set_session_root_directory,
    unregister_child, workdir_change, workdir_request, DirCheck, Param, SessionRoot, ShellChildren, WorkdirRequest,
    WorkdirResult,
};
use nail_agent::hints::{drain_hints, HintQueue};
use nail_agent::line_hash::LineMode;
use nail_agent::text_editing::byte_offset_to_line;

const READ_HINT: &str =
    "⚠️ Prefer `view` for reading files (line-numbered, supports ranges). Use shell only when piping output.";
const GREP_HINT: &str = "⚠️ Use `view` with content= to search for text in files or directories (gitignore-aware, context lines, line numbers).";

#[test]
fn line_mode_from_the_command_line() {
    assert_eq!(parse_line_mode("hash"), LineMode::Hash);
    assert_eq!(parse_line_mode("number"), LineMode::Number);
    assert_eq!(parse_line_mode("anything"), LineMode::Number);
}

#[test]
fn session_root_is_set_once() {
    let mut root = SessionRoot::new();
    assert_eq!(get_session_root_directory(&root, "/cwd"), "/cwd");
    set_session_root_directory(&mut root, "/first".to_string());
    set_session_root_directory(&mut root, "/second".to_string());
    assert_eq!(get_session_root_directory(&root, "/cwd"), "/first");
}

#[test]
fn command_parameter_checks() {
    assert_eq!(command_param(&Param::Absent), Err("Missing required 'command' parameter".to_string()));
    assert_eq!(command_param(&Param::Other), Err("Command parameter must be a string".to_string()));
    assert_eq!(command_param(&Param::Text("  ".to_string())), Err("Command parameter cannot be empty".to_string()));
    assert_eq!(command_param(&Param::Text(" ls ".to_string())), Ok(" ls ".to_string()));
}

#[test]
fn shell_misuse_hints_name_the_better_tool() {
    assert_eq!(detect_shell_misuse("cat foo.rs"), Some(READ_HINT));
    assert_eq!(detect_shell_misuse("  tail"), Some(READ_HINT));
    assert_eq!(detect_shell_misuse("grep -r x ."), Some(GREP_HINT));
    assert!(detect_shell_misuse("ls\t-la").is_some());
    assert!(detect_shell_misuse("sed -i s/a/b/ f").is_some());
    assert_eq!(detect_shell_misuse("catalog"), None);
    assert_eq!(detect_shell_misuse("echo cat"), None);
}

#[test]
fn background_commands_report_their_pid() {
    assert_eq!(
        background_report(42),
        "Command started in background with PID 42\nUse 'kill 42' to terminate this background process if needed"
    );
}

#[test]
fn finished_shell_commands_report_output_or_failure() {
    let mut q = HintQueue::new();
    assert_eq!(finish_shell("cat f", "out", "", true, Some(0), &mut q), Ok("out".to_string()));
    assert_eq!(finish_shell("echo", "", "warn", true, Some(0), &mut q), Ok("warn".to_string()));
    assert_eq!(
        finish_shell("make", "o", "e", false, Some(2), &mut q),
        Err("Command failed with exit code 2\nCommand: make\n\nOutput:\no\n\nError: e".to_string())
    );
    assert_eq!(
        finish_shell("make", "", "", false, None, &mut q),
        Err("Command failed with exit code -1\nCommand: make\n\nOutput:\n".to_string())
    );
    assert_eq!(drain_hints(&mut q), vec![READ_HINT.to_string()]);
}

#[test]
fn shell_children_are_tracked_once_and_taken_all() {
    let mut children = ShellChildren::new();
    register_child(&mut children, 7);
    register_child(&mut children, 9);
    register_child(&mut children, 7);
    unregister_child(&mut children, 9);
    unregister_child(&mut children, 11);
    assert_eq!(kill_all_shell_children(&mut children), vec![7]);
    assert!(kill_all_shell_children(&mut children).is_empty());
}

#[test]
fn workdir_requests_and_changes() {
    assert!(matches!(workdir_request(true, &Param::Other, "/w"), Ok(WorkdirRequest::Reset)));
    assert!(matches!(workdir_request(false, &Param::Absent, "/w"), Ok(WorkdirRequest::Get)));
    match workdir_request(false, &Param::Text(" sub ".to_string()), "/w") {
        Ok(WorkdirRequest::Change(p)) => assert_eq!(p, "/w/sub"),
        _ => panic!("expected a change"),
    }
    match workdir_request(false, &Param::Text("/abs".to_string()), "/w") {
        Ok(WorkdirRequest::Change(p)) => assert_eq!(p, "/abs"),
        _ => panic!("expected a change"),
    }
    assert!(matches!(workdir_request(false, &Param::Text("  ".to_string()), "/w"), Err(ref e) if e == "Parameter 'path' must be a non-empty string"));
    assert!(matches!(workdir_request(false, &Param::Other, "/w"), Err(_)));
    match workdir_change("/w", "/w/x", DirCheck::Missing("No such file".to_string())) {
        Err(e) => assert_eq!(e, "Path does not exist or is not accessible: /w/x (error: No such file)"),
        Ok(_) => panic!("expected an error"),
    }
    match workdir_change("/w", "/w/f", DirCheck::Found("/real/f".to_string(), false)) {
        Err(e) => assert_eq!(e, "Path is not a directory: /real/f"),
        Ok(_) => panic!("expected an error"),
    }
    match workdir_change("/w", "/w/d", DirCheck::Found("/real/d".to_string(), true)) {
        Ok(r) => {
            assert_eq!(r.message().as_deref(), Some("Working directory changed from /w to /real/d"));
            assert!(matches!(r, WorkdirResult::Changed { .. }));
        },
        Err(_) => panic!("expected a change"),
    }
    let get = WorkdirResult::Get { working_directory: "/w".to_string() };
    assert_eq!(get.message().as_deref(), Some("Current working directory: /w"));
    assert_eq!(WorkdirResult::Reset.message(), None);
}

#[test]
fn lock_keys_prefer_canonical_forms() {
    assert_eq!(lock_key_for("a/b.txt", Some("/real/a/b.txt"), None), "/real/a/b.txt");
    assert_eq!(lock_key_for("a/b.txt", None, Some("/real/a")), "/real/a/b.txt");
    assert_eq!(lock_key_for("a/b.txt", None, None), "a/b.txt");
    assert_eq!(lock_key_for("x/..", None, Some("/p")), "x/..");
    assert_eq!(lock_key_for("/", None, Some("/p")), "/");
}

#[test]
fn byte_offsets_map_to_lines() {
    assert_eq!(byte_offset_to_line("a\nb\nc", 0), 1);
    assert_eq!(byte_offset_to_line("a\nb\nc", 2), 2);
    assert_eq!(byte_offset_to_line("a\nb\nc", 4), 3);
    assert_eq!(byte_offset_to_line("é\nx", 3), 2);
}
