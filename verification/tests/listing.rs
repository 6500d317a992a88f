use nail_agent::listing::{content_listing, convert_glob_to_regex, is_binary_sample, list_names, render_file_matches, FileBytes};
use nail_agent::search::{search_content, Matcher};

fn strings(v: &[&str]) -> Vec<String> {
    v.iter().map(|s| s.to_string()).collect()
}

#[test]
fn test_content_search_with_special_chars() {
    let content = "line1\nbackward_step()\nline3\n";
    let blocks = search_content(content, "backward_step()", 0);
    assert_eq!(blocks.len(), 1);
    assert_eq!(blocks[0].line_numbers, vec![2]);
}

#[test]
fn globs_become_regular_expressions() {
    assert_eq!(convert_glob_to_regex("*.json"), ".*?.json");
    assert_eq!(convert_glob_to_regex("file?.rs"), "file..rs");
    assert_eq!(convert_glob_to_regex("[abc]x"), "[abc]x");
    assert_eq!(convert_glob_to_regex("[ab"), "[ab");
    assert_eq!(convert_glob_to_regex("f(1)+{2}^$\\"), "f\\(1\\)\\+\\{2\\}\\^\\$\\\\");
    assert_eq!(convert_glob_to_regex("*.rs | *.toml"), "(.*?.rs|.*?.toml)");
    assert_eq!(convert_glob_to_regex("a|b"), "(a|b)");
}

#[test]
fn names_are_sorted_and_filtered() {
    let files = strings(&["config.json", "b.json", "a.txt"]);
    assert_eq!(list_names(&files, Some("*.json")), "b.json\nconfig.json");
    assert_eq!(list_names(&files, None), "a.txt\nb.json\nconfig.json");
    // A pattern whose regular expression does not compile filters nothing.
    assert_eq!(list_names(&files, Some("[")), "a.txt\nb.json\nconfig.json");
}

#[test]
fn file_matches_render_with_line_numbers() {
    let m = Matcher::new("foo", false).expect("literal");
    assert_eq!(render_file_matches("a.rs", "x\nfoo\ny\n", &m, 0, false).as_deref(), Some("a.rs:\n2:foo"));
    assert_eq!(render_file_matches("a.rs", "x\nfoo\ny\n", &m, 1, false).as_deref(), Some("a.rs:\n1:x\n2:foo\n3:y"));
    assert_eq!(render_file_matches("a.rs", "foo\nx\nx\nx\nfoo\n", &m, 0, false).as_deref(), Some("a.rs:\n1:foo\n--\n5:foo"));
    assert_eq!(render_file_matches("a.rs", "nothing", &m, 0, false), None);
}

#[test]
fn binary_files_are_recognised_by_their_zero_bytes() {
    assert!(is_binary_sample(&vec![0u8; 10]));
    assert!(!is_binary_sample(&b"hello".to_vec()));
    assert!(!is_binary_sample(&vec![]));
    let mut mostly_text = vec![b'a'; 100];
    mostly_text[0] = 0;
    assert!(!is_binary_sample(&mostly_text));
}

#[test]
fn content_search_skips_binary_unreadable_and_silent_files() {
    let m = Matcher::new("foo", false).expect("literal");
    let files = vec![
        FileBytes { rel_path: "a.rs".to_string(), bytes: Some(b"x\nfoo\n".to_vec()) },
        FileBytes { rel_path: "b.bin".to_string(), bytes: Some(vec![0u8; 20]) },
        FileBytes { rel_path: "gone.rs".to_string(), bytes: None },
        FileBytes { rel_path: "quiet.rs".to_string(), bytes: Some(b"bar".to_vec()) },
        FileBytes { rel_path: "c.rs".to_string(), bytes: Some(b"foo".to_vec()) },
    ];
    assert_eq!(content_listing(&files, &m, 0, false), "a.rs:\n2:foo\n\nc.rs:\n1:foo");
}
