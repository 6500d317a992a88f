use nail_agent::paths::{check_path, components, join_paths, lexical_clean, path_under, resolve};

#[test]
fn lexical_clean_collapses_dots() {
    assert_eq!(lexical_clean("/a/b/../c/./d"), "/a/c/d");
    assert_eq!(lexical_clean("a/../../b"), "../b");
}

#[test]
fn lexical_clean_edge_cases() {
    assert_eq!(lexical_clean(""), ".");
    assert_eq!(lexical_clean("./"), ".");
    assert_eq!(lexical_clean("/"), "/");
    // The root has no parent: `..` stays.
    assert_eq!(lexical_clean("/.."), "/..");
    // `..` then `..` pops the first one again.
    assert_eq!(lexical_clean("../.."), ".");
    assert_eq!(lexical_clean("a//b/"), "a/b");
}

#[test]
fn components_follow_the_path_rules() {
    assert_eq!(components("/a//b/./c/"), vec!["/", "a", "b", "c"]);
    assert_eq!(components("./x"), vec![".", "x"]);
    assert_eq!(components("a/./b"), vec!["a", "b"]);
    assert!(components("").is_empty());
}

#[test]
fn joining_and_resolving_paths() {
    assert_eq!(join_paths("/w", "a.txt"), "/w/a.txt");
    assert_eq!(join_paths("/w/", "a.txt"), "/w/a.txt");
    assert_eq!(join_paths("", "a.txt"), "a.txt");
    assert_eq!(join_paths("/w", "/etc/x"), "/etc/x");
    assert_eq!(resolve("/w", "sub/f"), "/w/sub/f");
}

#[test]
fn under_compares_whole_components() {
    assert!(path_under("/tmp/box/a", "/tmp/box"));
    assert!(path_under("/tmp/box", "/tmp/box"));
    assert!(!path_under("/tmp/box2/a", "/tmp/box"));
    assert!(!path_under("tmp/box/a", "/tmp/box"));
}

#[test]
fn check_path_blocks_escape_and_sensitive() {
    let cwd = "/tmp/nail-sandbox";
    let home = "/home/tester";
    assert!(check_path(cwd, "sub/file.txt", None, None, Some(home)).is_ok());
    assert!(check_path(cwd, "/etc/hostname", None, Some("/etc/hostname"), Some(home)).is_err());
    assert!(check_path(cwd, "../../etc/hostname", None, None, Some(home)).is_err());
    assert!(check_path(cwd, "", None, None, Some(home)).is_err());
    assert!(check_path(cwd, &format!("{home}/.ssh/id_rsa"), None, None, Some(home)).is_err());
}

#[test]
fn check_path_reports_why() {
    assert_eq!(check_path("/w", "  ", None, None, None), Err("路径为空".to_string()));
    assert_eq!(
        check_path("/w", "/etc/x", None, None, None),
        Err("拒绝：/etc/x 超出会话目录 /w".to_string())
    );
    assert_eq!(
        check_path("/home/u", ".ssh/id_rsa", None, None, Some("/home/u")),
        Err("拒绝：敏感路径 /home/u/.ssh".to_string())
    );
    assert_eq!(
        check_path("/home/u", ".config/nail-agent/api_key", None, None, Some("/home/u")),
        Err("拒绝：敏感路径 /home/u/.config/nail-agent".to_string())
    );
    assert_eq!(check_path("/w", "a/../b.txt", None, None, None), Ok("/w/a/../b.txt".to_string()));
    // The canonical forms win over the lexical one.
    assert_eq!(
        check_path("/link", "f", Some("/real"), Some("/real/f"), None),
        Ok("/link/f".to_string())
    );
    assert!(check_path("/link", "f", Some("/real"), None, None).is_err());
}
