use nail_agent::search::{search_content, search_lines, Matcher};

#[test]
fn test_no_matches() {
    let blocks = search_content("hello\nworld\n", "xyz", 0);
    assert!(blocks.is_empty());
}

#[test]
fn test_single_match_no_context() {
    let blocks = search_content("aaa\nbbb\nccc\n", "bbb", 0);
    assert_eq!(blocks.len(), 1);
    assert_eq!(blocks[0].line_numbers, vec![2]);
}

#[test]
fn test_single_match_with_context() {
    let blocks = search_content("aaa\nbbb\nccc\nddd\neee\n", "ccc", 1);
    assert_eq!(blocks.len(), 1);
    assert_eq!(blocks[0].line_numbers, vec![2, 3, 4]);
}

#[test]
fn test_multiple_matches_merge() {
    let blocks = search_content("a\nb\nc\nd\ne\n", "b", 1);
    assert_eq!(blocks.len(), 1);
    assert_eq!(blocks[0].line_numbers, vec![1, 2, 3]);
}

#[test]
fn test_multiple_matches_separate_blocks() {
    let blocks = search_content("a\nmatch\nc\nd\ne\nf\nmatch\nh\n", "match", 0);
    assert_eq!(blocks.len(), 2);
    assert_eq!(blocks[0].line_numbers, vec![2]);
    assert_eq!(blocks[1].line_numbers, vec![7]);
}

#[test]
fn test_context_merges_adjacent_matches() {
    let blocks = search_content("a\nmatch\nc\nmatch\ne\n", "match", 1);
    assert_eq!(blocks.len(), 1);
    assert_eq!(blocks[0].line_numbers, vec![1, 2, 3, 4, 5]);
}

#[test]
fn test_context_clamps_to_bounds() {
    let blocks = search_content("match\nb\nc\n", "match", 3);
    assert_eq!(blocks.len(), 1);
    assert_eq!(blocks[0].line_numbers, vec![1, 2, 3]);
}

#[test]
fn test_empty_pattern() {
    let blocks = search_content("hello\n", "", 0);
    assert!(blocks.is_empty());
}

#[test]
fn test_empty_content() {
    let blocks = search_content("", "hello", 0);
    assert!(blocks.is_empty());
}

#[test]
fn test_regex_alternation() {
    let m = Matcher::new("TODO|FIXME", true).unwrap();
    let blocks = search_lines("a\nTODO\nc\nFIXME\ne\n", &m, 0);
    assert_eq!(blocks.len(), 2);
    assert_eq!(blocks[0].line_numbers, vec![2]);
    assert_eq!(blocks[1].line_numbers, vec![4]);
}

#[test]
fn test_regex_case_insensitive() {
    let m = Matcher::new("(?i)error", true).unwrap();
    let blocks = search_lines("ok\nERROR here\nError again\nfine\n", &m, 0);
    assert_eq!(blocks.len(), 1);
    assert_eq!(blocks[0].line_numbers, vec![2, 3]);
}

#[test]
fn test_regex_invalid_returns_error() {
    let err = Matcher::new("[unclosed", true).err().unwrap();
    assert!(err.to_string().to_lowercase().contains("regex"));
}

#[test]
fn test_literal_treats_regex_chars_literally() {
    let m = Matcher::new("backward_step()", false).unwrap();
    let blocks = search_lines("line1\nbackward_step()\nline3\n", &m, 0);
    assert_eq!(blocks.len(), 1);
    assert_eq!(blocks[0].line_numbers, vec![2]);
}

#[test]
fn crlf_lines_and_trailing_line_without_newline() {
    let blocks = search_content("a\r\nneedle\r\nz", "z", 0);
    assert_eq!(blocks.len(), 1);
    assert_eq!(blocks[0].line_numbers, vec![3]);
}

#[test]
fn matcher_reports_empty_literal_and_matches() {
    let m = Matcher::new("", false).unwrap();
    assert!(m.is_empty_pattern());
    let r = Matcher::new("a+", true).unwrap();
    assert!(!r.is_empty_pattern());
    assert!(r.is_match("baaa"));
    assert!(!r.is_match("bbb"));
    let err = Matcher::new("(", true).err().unwrap();
    assert!(err.starts_with("Invalid regex pattern: "));
}
