use nail_agent::glob::is_dotfile_or_in_dot_directory;

#[test]
fn test_is_dotfile_or_in_dot_directory() {
    assert!(!is_dotfile_or_in_dot_directory("src/main.rs"));
    assert!(!is_dotfile_or_in_dot_directory("ui/components/Button.svelte"));
    assert!(!is_dotfile_or_in_dot_directory("README.md"));

    assert!(is_dotfile_or_in_dot_directory(".env"));
    assert!(is_dotfile_or_in_dot_directory(".gitignore"));
    assert!(is_dotfile_or_in_dot_directory(".eslintrc.json"));

    assert!(is_dotfile_or_in_dot_directory(".git/config"));
    assert!(is_dotfile_or_in_dot_directory(".vscode/settings.json"));
    assert!(is_dotfile_or_in_dot_directory("src/.hidden/file.rs"));
    assert!(is_dotfile_or_in_dot_directory(".github/workflows/ci.yml"));

    assert!(!is_dotfile_or_in_dot_directory("."));
    assert!(!is_dotfile_or_in_dot_directory(".."));
    assert!(!is_dotfile_or_in_dot_directory("./src/main.rs"));
    assert!(!is_dotfile_or_in_dot_directory("../other/file.rs"));
}

#[test]
fn hidden_component_after_root_counts() {
    assert!(is_dotfile_or_in_dot_directory("/home/u/.ssh/id_rsa"));
    assert!(!is_dotfile_or_in_dot_directory("/home/u/file"));
    assert!(!is_dotfile_or_in_dot_directory(""));
}
