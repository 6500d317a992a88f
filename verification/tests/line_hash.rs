use nail_agent::line_hash::{
    build_hash_to_line_map, compute_line_hashes, fnv1a_16, get_line_mode, is_hash_mode,
    resolve_hash_to_line, set_line_mode, LineMode, LineModeSetting,
};

#[test]
fn test_basic_hash_deterministic() {
    let h1 = fnv1a_16("1:hello world");
    let h2 = fnv1a_16("1:hello world");
    assert_eq!(h1, h2);
}

#[test]
fn test_different_content_different_hash() {
    let h1 = fnv1a_16("1:line one");
    let h2 = fnv1a_16("1:line two");
    assert_ne!(h1, h2);
}

#[test]
fn test_compute_unique_lines() {
    let lines = vec!["fn main() {", "    println!(\"hello\");", "}"];
    let hashes = compute_line_hashes(&lines);
    assert_eq!(hashes.len(), 3);

    let unique: std::collections::HashSet<&String> = hashes.iter().collect();
    assert_eq!(unique.len(), 3);

    for h in &hashes {
        assert_eq!(h.len(), 4);
        assert!(h.chars().all(|c| c.is_ascii_hexdigit()));
    }
}

#[test]
fn test_duplicate_content_unique_hashes() {
    let lines = vec!["same", "same", "same"];
    let hashes = compute_line_hashes(&lines);
    assert_eq!(hashes.len(), 3);
    let unique: std::collections::HashSet<&String> = hashes.iter().collect();
    assert_eq!(
        unique.len(),
        3,
        "duplicate lines must get unique hashes via position"
    );

    assert_eq!(hashes[0], format!("{:04x}", fnv1a_16("1:same")));
    assert_eq!(hashes[1], format!("{:04x}", fnv1a_16("2:same")));
    assert_eq!(hashes[2], format!("{:04x}", fnv1a_16("3:same")));
}

#[test]
fn test_same_content_different_position_different_hash() {
    let h1 = fnv1a_16("1:closing brace");
    let h2 = fnv1a_16("5:closing brace");
    assert_ne!(h1, h2);
}

#[test]
fn test_reverse_lookup() {
    let lines = vec!["first", "second", "third"];
    let map = build_hash_to_line_map(&lines);
    assert_eq!(map.len(), 3);

    let hashes = compute_line_hashes(&lines);
    assert_eq!(map.get(&hashes[0]), Some(1));
    assert_eq!(map.get(&hashes[1]), Some(2));
    assert_eq!(map.get(&hashes[2]), Some(3));
}

#[test]
fn test_resolve_hash() {
    let lines = vec!["first", "second", "third"];
    let hashes = compute_line_hashes(&lines);

    assert_eq!(resolve_hash_to_line(&hashes[0], &lines).unwrap(), 1);
    assert_eq!(resolve_hash_to_line(&hashes[1], &lines).unwrap(), 2);
    assert_eq!(resolve_hash_to_line(&hashes[2], &lines).unwrap(), 3);
    assert!(resolve_hash_to_line("zzzz", &lines).is_err());
}

#[test]
fn test_empty_lines() {
    let lines = vec!["", "", "content"];
    let hashes = compute_line_hashes(&lines);
    assert_eq!(hashes.len(), 3);
    let unique: std::collections::HashSet<&String> = hashes.iter().collect();
    assert_eq!(unique.len(), 3);
}

#[test]
fn test_hash_format_lowercase_hex() {
    let lines = vec!["test"];
    let hashes = compute_line_hashes(&lines);
    assert!(hashes[0]
        .chars()
        .all(|c| c.is_ascii_lowercase() || c.is_ascii_digit()));
}

#[test]
fn test_unique_content_hash_stable_at_same_position() {
    let lines_a = vec!["alpha", "beta", "gamma"];
    let lines_b = vec!["alpha", "beta", "gamma"];
    let hashes_a = compute_line_hashes(&lines_a);
    let hashes_b = compute_line_hashes(&lines_b);
    assert_eq!(hashes_a, hashes_b);
}

#[test]
fn test_modified_line_changes_hash() {
    let lines_before = vec!["alpha", "beta", "gamma"];
    let hashes_before = compute_line_hashes(&lines_before);

    let lines_after = vec!["alpha", "BETA_MODIFIED", "gamma"];
    let hashes_after = compute_line_hashes(&lines_after);

    assert_eq!(hashes_before[0], hashes_after[0]);
    assert_ne!(hashes_before[1], hashes_after[1]);
    assert_eq!(hashes_before[2], hashes_after[2]);
}

#[test]
fn fnv_known_value_and_hex_rendering() {
    // FNV-1a of the empty input is the offset basis 0x811c9dc5; folded: 0x811c ^ 0x9dc5.
    assert_eq!(fnv1a_16(""), 0x811c ^ 0x9dc5);
    let hashes = compute_line_hashes(&["x"]);
    assert_eq!(hashes[0], format!("{:04x}", fnv1a_16("1:x")));
}

#[test]
fn resolve_duplicate_hash_returns_last_line_and_reports_missing() {
    let lines = vec!["a", "b"];
    let hashes = compute_line_hashes(&lines);
    let err = resolve_hash_to_line("zzzz", &lines).unwrap_err();
    assert_eq!(err, "Hash 'zzzz' not found in file content");
    assert_eq!(resolve_hash_to_line(&hashes[1], &lines), Ok(2));
}

#[test]
fn line_mode_is_set_once_and_defaults_to_number() {
    let mut setting = LineModeSetting::new();
    assert_eq!(get_line_mode(&setting), LineMode::Number);
    assert!(!is_hash_mode(&setting));
    set_line_mode(&mut setting, LineMode::Hash);
    set_line_mode(&mut setting, LineMode::Number);
    assert_eq!(get_line_mode(&setting), LineMode::Hash);
    assert!(is_hash_mode(&setting));
}
