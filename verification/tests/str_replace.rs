use nail_agent::str_replace::{plan_str_replace, str_replace_defined, ReplacePlan};

fn exact(content: &str, old: &str, new: &str) -> (String, String, Option<String>) {
    assert!(str_replace_defined(content, old, new));
    match plan_str_replace(content, old, new, false) {
        ReplacePlan::Exact { content, diff, hint } => (content, diff, hint),
        _ => panic!("expected an exact match"),
    }
}

fn fuzzy(content: &str, old: &str, new: &str) -> String {
    assert!(str_replace_defined(content, old, new));
    match plan_str_replace(content, old, new, false) {
        ReplacePlan::Fuzzy { content, hint, .. } => {
            assert_eq!(
                hint,
                "Replaced via fuzzy match (whitespace-normalized). Indentation was auto-adjusted to match the file."
            );
            content
        }
        _ => panic!("expected a fuzzy match"),
    }
}

#[test]
fn str_replace_basic_single_word() {
    let (content, diff, hint) = exact(
        "Hello world\nThis is a test\nGoodbye universe",
        "world",
        "universe",
    );
    assert_eq!(content, "Hello universe\nThis is a test\nGoodbye universe");
    assert_eq!(
        diff,
        "-1: Hello world\n+1: universe\n2: This is a test\n3: Goodbye universe"
    );
    assert_eq!(hint, None);
}

#[test]
fn str_replace_multiline_old_gets_hint() {
    let (content, _diff, hint) = exact("line 1\nline 2\nline 3\nline 4", "line 2\nline 3", "REPLACED");
    assert_eq!(content, "line 1\nREPLACED\nline 4");
    assert_eq!(
        hint,
        Some(
            "`str_replace` matched 2 lines. Prefer `batch_edit` when you know the line range — it's faster and avoids content-search ambiguity."
                .to_string()
        )
    );
}

#[test]
fn str_replace_multiline_new() {
    let (content, _, _) = exact("line 1\nREPLACE_ME\nline 3", "REPLACE_ME", "new line 1\nnew line 2");
    assert_eq!(content, "line 1\nnew line 1\nnew line 2\nline 3");
}

#[test]
fn str_replace_diff_marks_elided_context() {
    let (_, diff, _) = exact("a\nb\nc\nd\ne\nf\ng\nh", "e", "E");
    assert_eq!(diff, "...\n3: c\n4: d\n-5: e\n+5: E\n6: f\n7: g\n...");
}

#[test]
fn str_replace_repeated_text_is_ambiguous() {
    match plan_str_replace("x\ny\nx\n", "x", "z", false) {
        ReplacePlan::Ambiguous(m) => assert_eq!(
            m,
            "Found 2 matches for replacement text at:\n  1. line 1\n  2. line 3\nAdd more surrounding context to make a unique match, or use `batch_edit` with the specific line range."
        ),
        _ => panic!("expected an ambiguous match"),
    }
}

#[test]
fn str_replace_three_matches_counted() {
    match plan_str_replace("test test test", "test", "replacement", false) {
        ReplacePlan::Ambiguous(m) => assert!(m.contains("Found 3 matches")),
        _ => panic!("expected an ambiguous match"),
    }
}

#[test]
fn str_replace_fuzzy_whitespace() {
    let content = fuzzy(
        "fn hello() {\n    let x = 1;\n}",
        "fn hello() {\n\tlet x = 1;\n}",
        "fn hello() {\n    let x = 2;\n}",
    );
    assert_eq!(content, "fn hello() {\n    let x = 2;\n}");
}

#[test]
fn str_replace_fuzzy_reindents() {
    let content = fuzzy(
        "class Foo {\n    def bar():\n        pass\n}",
        "def bar():\n    pass",
        "def baz():\n    return 42",
    );
    assert_eq!(content, "class Foo {\n    def baz():\n        return 42\n}");
}

#[test]
fn str_replace_no_match() {
    assert!(str_replace_defined("fn hello_world() {}", "fn hello_word() {}", "x"));
    assert!(matches!(
        plan_str_replace("fn hello_world() {}", "fn hello_word() {}", "x", false),
        ReplacePlan::NoMatch
    ));
}

#[test]
fn str_replace_empty_old_text_in_nonempty_file_is_undefined() {
    assert!(!str_replace_defined("abc", "", "x"));
}
