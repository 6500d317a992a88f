use nail_agent::line_hash::compute_line_hashes;
use nail_agent::truncation::{
    apply_head_truncation, estimate_tokens, format_content_with_line_numbers,
    format_extracted_content_smart, format_file_content_with_numbers, truncate_content_smart,
    truncate_mcp_response_global, truncate_to_tokens,
};

#[test]
fn test_no_truncation_when_under_limit() {
    let lines = vec!["line1".to_string(), "line2".to_string()];
    let (result, info) = apply_head_truncation(&lines, 5);

    assert_eq!(result, lines);
    assert!(info.is_none());
}

#[test]
fn test_truncation_when_over_limit() {
    let lines = vec![
        "line1".to_string(),
        "line2".to_string(),
        "line3".to_string(),
        "line4".to_string(),
        "line5".to_string(),
    ];
    let (result, info) = apply_head_truncation(&lines, 3);

    assert_eq!(result.len(), 3);
    assert_eq!(result[0], "line1");
    assert_eq!(result[1], "line2");
    assert!(result[2].contains("3 lines truncated"));
    assert!(info.is_some());
    assert!(info.unwrap().contains("showing 3 of 5 total lines"));
}

#[test]
fn test_unlimited_when_max_lines_zero() {
    let lines = vec!["line1".to_string(), "line2".to_string()];
    let (result, info) = apply_head_truncation(&lines, 0);

    assert_eq!(result, lines);
    assert!(info.is_none());
}

#[test]
fn test_mcp_truncation_unlimited() {
    let content = "This is a test content";
    let (result, was_truncated) = truncate_mcp_response_global(content, 0);
    assert_eq!(result, content);
    assert!(!was_truncated);
}

#[test]
fn test_mcp_truncation_under_limit() {
    let content = "Short content";
    let (result, was_truncated) = truncate_mcp_response_global(content, 1000);
    assert_eq!(result, content);
    assert!(!was_truncated);
}

#[test]
fn test_mcp_truncation_over_limit() {
    let content = "This is a very long content that should be truncated when it exceeds the token limit. ".repeat(100);
    let (result, was_truncated) = truncate_mcp_response_global(&content, 50);
    assert!(result.contains("⚠️ **MCP RESPONSE TRUNCATED**"));
    assert!(result.len() < content.len());
    assert!(was_truncated);
}

#[test]
fn estimate_rounds_up_bytes_over_four() {
    assert_eq!(estimate_tokens(""), 0);
    assert_eq!(estimate_tokens("abcd"), 1);
    assert_eq!(estimate_tokens("abcde"), 2);
    // "é" is two bytes
    assert_eq!(estimate_tokens("ééé"), 2);
}

#[test]
fn truncate_cuts_at_last_newline_in_budget() {
    assert_eq!(truncate_to_tokens("abc\ndefgh", 2), "abc");
    assert_eq!(truncate_to_tokens("abcdefghij", 2), "abcdefgh");
    assert_eq!(truncate_to_tokens("short", 2), "short");
}

#[test]
fn smart_truncation_notice_has_exact_text() {
    let r = truncate_content_smart("abcdefghij", 2);
    assert_eq!(
        r,
        "abcdefgh\n\n⚠️ **MCP RESPONSE TRUNCATED** - Original: 3 tokens estimated, max 2 allowed. Use more specific commands to reduce output size]"
    );
}

#[test]
fn numbered_lines_plain_and_ranges() {
    let lines: Vec<&str> = (1..=12).map(|i| ["a", "b", "c", "d", "e", "f", "g", "h", "i", "j", "k", "l"][i - 1]).collect();
    assert_eq!(format_content_with_line_numbers(&lines[..3], 1, None, false), "1:a\n2:b\n3:c");
    assert_eq!(format_content_with_line_numbers(&lines[..3], 10, None, false), "10:a\n11:b\n12:c");
    // range 8..=9 of 12: head shows 2 lines + marker, tail has 3 remaining lines.
    let out = format_content_with_line_numbers(&lines, 1, Some((8, 9)), false);
    assert_eq!(out, "1:a\n2:b\n[...5 lines more]\n8:h\n9:i\n10:j\n11:k\n12:l");
    // range 1..=2 of 12: 10 remaining -> marker then last two.
    let out = format_content_with_line_numbers(&lines, 1, Some((1, 2)), false);
    assert_eq!(out, "1:a\n2:b\n[...8 lines more]\n11:k\n12:l");
    assert_eq!(
        format_content_with_line_numbers(&lines, 1, Some((20, -1)), false),
        "Start line 20 exceeds content length (12 lines)"
    );
    assert_eq!(
        format_content_with_line_numbers(&lines, 1, Some((5, 3)), false),
        "Start line 5 must be less than or equal to end line 3"
    );
    assert_eq!(format_file_content_with_numbers(&lines[..2], Some((2, -1)), false), "1:a\n2:b");
}

#[test]
fn numbered_lines_in_hash_mode_use_hashes() {
    let lines = vec!["x", "y"];
    let hashes = compute_line_hashes(&lines);
    let out = format_content_with_line_numbers(&lines, 1, None, true);
    assert_eq!(out, format!("{}:x\n{}:y", hashes[0], hashes[1]));
}

#[test]
fn extracted_content_is_summarised_past_limit() {
    let lines: Vec<&str> = vec!["a", "b", "c", "d", "e", "f"];
    assert_eq!(format_extracted_content_smart(&lines[..2], 5, None, None, false), "5:a\n6:b");
    // max 4: first 2, marker for 3, last 1
    let out = format_extracted_content_smart(&lines, 1, Some(4), None, false);
    assert_eq!(out, "1:a\n2:b\n[...3 lines more]\n6:f");
    let ids = vec!["p".to_string(), "q".to_string()];
    assert_eq!(format_extracted_content_smart(&lines[..2], 1, None, Some(&ids), false), "p:a\nq:b");
}
