use nail_agent::text_editing::{
    adjust_indentation, detect_indent, diagnose_mismatch, is_structural_noise,
    lcs_length, normalize_whitespace, resolve_line_index, resolve_line_range_batch,
};

#[test]
fn line_index_positive_and_negative() {
    assert_eq!(resolve_line_index(1, 5), Ok(1));
    assert_eq!(resolve_line_index(5, 5), Ok(5));
    assert_eq!(resolve_line_index(-1, 5), Ok(5));
    assert_eq!(resolve_line_index(-5, 5), Ok(1));
}

#[test]
fn line_index_errors() {
    assert_eq!(
        resolve_line_index(0, 5),
        Err("Line numbers are 1-indexed, use 1 for first line".to_string())
    );
    assert_eq!(resolve_line_index(6, 5), Err("Line 6 exceeds file length (5 lines)".to_string()));
    assert_eq!(
        resolve_line_index(-6, 5),
        Err("Negative index -6 exceeds file length (5 lines)".to_string())
    );
}

#[test]
fn line_range_batch() {
    assert_eq!(resolve_line_range_batch(2, -1, 4), Ok((2, 4)));
    assert!(resolve_line_range_batch(3, 2, 4).is_err());
    assert!(resolve_line_range_batch(1, 9, 4).is_err());
}

#[test]
fn whitespace_normalised_per_line() {
    assert_eq!(normalize_whitespace("  a \t b  \n\tc   d\n"), "a b\nc d");
}

#[test]
fn mismatch_diagnosis() {
    assert_eq!(diagnose_mismatch("a  b\n c", "a b\nc"), "whitespace/indentation mismatch only");
    assert_eq!(diagnose_mismatch("a b", "a c"), "content differs");
}

#[test]
fn structural_noise_lines() {
    assert!(is_structural_noise(""));
    assert!(is_structural_noise("   "));
    assert!(is_structural_noise("    }"));
    assert!(is_structural_noise("];"));
    assert!(is_structural_noise("),"));
    assert!(!is_structural_noise("});"));
    assert!(!is_structural_noise("let x = 1;"));
}

#[test]
fn indentation_detected_from_first_content_line() {
    assert_eq!(detect_indent("\n    foo\n  bar"), vec![' ', ' ', ' ', ' ']);
    assert_eq!(detect_indent("foo"), Vec::<char>::new());
}

#[test]
fn indentation_adjusted_to_actual_text() {
    assert_eq!(
        adjust_indentation("def baz():\n    return 42", "def bar():\n    pass", "    def bar():\n        pass"),
        "    def baz():\n        return 42"
    );
    assert_eq!(adjust_indentation("x\ny", "  a", "  a"), "x\ny");
}

#[test]
fn lcs_of_short_texts() {
    let a: Vec<char> = "hello_world".chars().collect();
    let b: Vec<char> = "hello_word".chars().collect();
    assert_eq!(lcs_length(&a, &b), 10);
    assert_eq!(lcs_length(&a, &[]), 0);
}
