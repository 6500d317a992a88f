use nail_agent::order::{lex_less, sort_strings, sorted_unique};

fn strings(v: &[&str]) -> Vec<String> {
    v.iter().map(|s| s.to_string()).collect()
}

#[test]
fn strings_compare_by_characters() {
    assert!(lex_less("a", "b"));
    assert!(lex_less("ab", "abc"));
    assert!(!lex_less("abc", "ab"));
    assert!(!lex_less("a", "a"));
    assert!(lex_less("B", "a"));
    assert!(lex_less("", "x"));
}

#[test]
fn sorting_keeps_repeats_and_dedup_drops_them() {
    let v = strings(&["b", "a", "c", "a"]);
    assert_eq!(sort_strings(&v), strings(&["a", "a", "b", "c"]));
    assert_eq!(sorted_unique(&v), strings(&["a", "b", "c"]));
    let mut std_sorted = v.clone();
    std_sorted.sort();
    assert_eq!(sort_strings(&v), std_sorted);
}
