use nail_agent::tools::{clip, screen_command, tool_kind, ToolKindTag};

#[test]
fn screen_blocks_destructive_patterns() {
    assert!(screen_command("rm -rf / tmp").is_some());
    assert!(screen_command("mkfs.ext4 /dev/sda1").is_some());
    assert!(screen_command("echo hi").is_none());
    assert!(screen_command("cargo build 2>&1 | head").is_none());
}

#[test]
fn screening_collapses_whitespace_and_names_the_rule() {
    assert_eq!(
        screen_command("rm   -rf\t/").as_deref(),
        Some("拒绝：命令命中危险模式 `rm -rf /`")
    );
    assert_eq!(
        screen_command("dd if=/dev/zero of=/dev/sda").as_deref(),
        Some("拒绝：命令命中危险模式 `dd `")
    );
}

#[test]
fn tool_kinds_follow_the_base_name() {
    assert_eq!(tool_kind("read"), ToolKindTag::Read);
    assert_eq!(tool_kind("fs__view"), ToolKindTag::Read);
    assert_eq!(tool_kind("octofs__batch_edit"), ToolKindTag::Edit);
    assert_eq!(tool_kind("write"), ToolKindTag::Edit);
    assert_eq!(tool_kind("a__b__shell"), ToolKindTag::Execute);
    assert_eq!(tool_kind("run"), ToolKindTag::Execute);
    assert_eq!(tool_kind("search"), ToolKindTag::Other);
    assert_eq!(tool_kind("read__search"), ToolKindTag::Other);
}

#[test]
fn clip_keeps_short_text_and_cuts_at_a_char_boundary() {
    assert_eq!(clip("hello", 5), "hello");
    assert_eq!(clip("hello!", 5), "hello…（截断，只显示前 5 字节）");
    // "é" takes two bytes: a limit of 2 keeps "a" only.
    assert_eq!(clip("aé", 2), "a…（截断，只显示前 2 字节）");
}

use nail_agent::tools::{
    decide_permission, denied_outcome, plan_local_call, read_report, shell_report, write_report, LocalArgs, LocalTool,
    PermissionReply,
};

#[test]
fn read_reports_clip_past_the_limit() {
    assert_eq!(read_report("short"), "short");
    let long = "a".repeat(8001);
    assert_eq!(read_report(&long), format!("{}…（截断，只显示前 8000 字节）", "a".repeat(8000)));
}

#[test]
fn write_reports_count_bytes() {
    assert_eq!(write_report("/t/a.txt", "héllo"), "已写入 /t/a.txt（6 字节）");
    assert_eq!(write_report("x", ""), "已写入 x（0 字节）");
}

#[test]
fn shell_reports_add_error_output_and_exit() {
    assert_eq!(shell_report("out", "", None), "out");
    assert_eq!(
        shell_report("out", "err", Some("exit status: 1")),
        "out\n[stderr]\nerr\n[exit exit status: 1]"
    );
}

#[test]
fn local_calls_are_planned_or_refused() {
    let args = Some(LocalArgs { command: "ls".to_string(), path: "a.txt".to_string(), content: String::new() });
    assert_eq!(plan_local_call("run", "{}", &args), Ok((LocalTool::Run, "run: ls".to_string())));
    assert_eq!(plan_local_call("read", "{}", &args), Ok((LocalTool::Read, "read a.txt".to_string())));
    assert_eq!(plan_local_call("write", "{}", &args), Ok((LocalTool::Write, "write a.txt".to_string())));
    assert_eq!(plan_local_call("run", "{bad", &None), Err("工具参数不是合法 JSON（run）：{bad".to_string()));
    assert_eq!(plan_local_call("rm", "{}", &args), Err("未知工具：rm（可用：run、read、write）".to_string()));
}

#[test]
fn permission_answers_decide_and_remember() {
    let d = decide_permission(&PermissionReply::Selected("allow-always".to_string()));
    assert!(d.allowed && d.remember);
    assert_eq!(d.audit, "allow-always");
    let d = decide_permission(&PermissionReply::Selected("allow-once".to_string()));
    assert!(d.allowed && !d.remember);
    assert_eq!(d.audit, "allow-once");
    let d = decide_permission(&PermissionReply::Selected("reject".to_string()));
    assert!(!d.allowed && !d.remember);
    assert_eq!(d.audit, "deny");
    assert_eq!(decide_permission(&PermissionReply::Cancelled).audit, "cancelled");
    assert_eq!(decide_permission(&PermissionReply::Other).audit, "deny");
    assert_eq!(decide_permission(&PermissionReply::Failed).audit, "error");
    let o = denied_outcome();
    assert_eq!(o.output, "用户拒绝了这次工具调用。");
    assert!(!o.cancelled);
}
