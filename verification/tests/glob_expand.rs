use nail_agent::glob::{expand_patterns, glob_search_dir, keep_walked_files, PathKind, WalkedFile};

fn strings(v: &[&str]) -> Vec<String> {
    v.iter().map(|s| s.to_string()).collect()
}

#[test]
fn search_dir_comes_from_the_first_absolute_pattern() {
    assert_eq!(glob_search_dir(&strings(&["/abs/src/**/*.rs"]), None), "/abs/src");
    assert_eq!(glob_search_dir(&strings(&["/abs/dir/*.rs"]), None), "/abs/dir");
    assert_eq!(glob_search_dir(&strings(&["src/*.rs", "/x/y/*.md"]), None), "/x/y");
    assert_eq!(glob_search_dir(&strings(&["src/*.rs"]), None), ".");
    assert_eq!(glob_search_dir(&strings(&["/*.rs"]), None), ".");
    assert_eq!(glob_search_dir(&strings(&["/**/x"]), None), ".");
    assert_eq!(glob_search_dir(&strings(&["/abs/**"]), Some("base")), "base");
}

#[test]
fn walked_dot_paths_are_dropped_unless_the_walk_is_hidden() {
    let files = vec![
        WalkedFile { path: "./src/a.rs".to_string(), relative: "src/a.rs".to_string() },
        WalkedFile { path: "./.git/config".to_string(), relative: ".git/config".to_string() },
    ];
    assert_eq!(keep_walked_files(".", &files), vec!["./src/a.rs".to_string()]);
    assert_eq!(keep_walked_files(".hidden", &files).len(), 2);
}

#[test]
fn wildcards_match_walked_files_sorted_and_once() {
    let files = strings(&["./c.rs", "./b.txt", "./a.rs"]);
    let out = expand_patterns(&strings(&["*.rs", "a.*"]), &vec![PathKind::Missing, PathKind::Missing], &files);
    assert_eq!(out, Ok(strings(&["./a.rs", "./c.rs"])));
}

#[test]
fn plain_paths_expand_as_files_or_directories() {
    let files = strings(&["./src/a.rs", "./srcx/b.rs", "./src/.hidden/c", "./docs/d.md"]);
    let out = expand_patterns(&strings(&["src/"]), &vec![PathKind::Dir], &files);
    assert_eq!(out, Ok(strings(&["./src/.hidden/c", "./src/a.rs", "./srcx/b.rs"])));
    let out = expand_patterns(&strings(&["README.md", ".env", "gone.txt"]), &vec![PathKind::File, PathKind::File, PathKind::Missing], &files);
    assert_eq!(out, Ok(strings(&["README.md"])));
}

#[test]
fn an_invalid_wildcard_pattern_is_refused() {
    let out = expand_patterns(&strings(&["*.rs", "[", "x"]), &vec![PathKind::Missing; 3], &strings(&["./a.rs"]));
    let err = out.expect_err("invalid pattern");
    assert!(err.starts_with("Invalid glob pattern '[': "), "{err}");
    assert!(err.contains("invalid range pattern"), "{err}");
}

#[test]
fn too_many_files_are_refused() {
    let files: Vec<String> = (0..1001).map(|i| format!("./f{i}.txt")).collect();
    let out = expand_patterns(&strings(&["*"]), &vec![PathKind::Missing], &files);
    assert_eq!(
        out,
        Err("Too many files expanded from glob patterns: 1001 files (max allowed: 1000). Consider using more specific patterns to reduce the file count.".to_string())
    );
    let out = expand_patterns(&strings(&["*"]), &vec![PathKind::Missing], &files[..1000].to_vec());
    assert_eq!(out.expect("at the limit").len(), 1000);
}
