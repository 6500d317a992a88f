use nail_agent::file_view::{
    created_report, dir_listing, exists_message, too_large, view_file_matches, view_file_ranges, view_file_text,
    view_many, DirEntry, FileProbe,
};
use nail_agent::search::Matcher;

fn entry(name: &str, is_dir: bool) -> DirEntry {
    DirEntry { name: name.to_string(), is_dir }
}

fn text_file(t: &str) -> FileProbe {
    FileProbe::File { size: Some(t.len() as u64), bytes: Some(t.as_bytes().to_vec()), text: Some(t.to_string()) }
}

#[test]
fn a_file_is_shown_with_line_numbers() {
    assert_eq!(view_file_text("a\nb\nc\n", None, false), Ok("1:a\n2:b\n3:c".to_string()));
    assert_eq!(view_file_text("a\nb\nc\n", Some((2, 3)), false), Ok("1:a\n2:b\n3:c".to_string()));
    assert_eq!(
        view_file_text("a\nb\nc\n", Some((5, -1)), false),
        Err("Start line 5 exceeds content length (3 lines)".to_string())
    );
    assert_eq!(
        view_file_text("a\nb\nc\n", Some((3, 1)), false),
        Err("Start line 3 must be less than or equal to end line 1".to_string())
    );
}

#[test]
fn several_ranges_are_separated() {
    let content = "1\n2\n3\n";
    assert_eq!(view_file_ranges(content, &vec![], false), "1:1\n2:2\n3:3");
    assert_eq!(view_file_ranges(content, &vec![(1, 1), (3, 3)], false), "1:1\n2:2\n3:3\n--\n1:1\n2:2\n3:3");
}

#[test]
fn file_matches_are_shown_in_blocks() {
    let m = Matcher::new("foo", false).expect("literal");
    assert_eq!(view_file_matches("foo\nx\nx\nx\nfoo\n", &m, 0, false), "1:foo\n--\n5:foo");
    assert_eq!(view_file_matches("none\n", &m, 0, false), "");
    assert_eq!(view_file_matches("", &m, 0, false), "");
}

#[test]
fn directory_entries_are_sorted_with_slashes() {
    let entries = vec![entry("src", true), entry("b.txt", false), entry("a.txt", false)];
    assert_eq!(dir_listing(&entries), "a.txt\nb.txt\nsrc/");
    assert_eq!(dir_listing(&vec![]), "");
}

#[test]
fn many_files_report_each_path() {
    let paths = vec!["a.txt".to_string(), "gone".to_string(), "d".to_string()];
    let probes = vec![text_file("x\ny\n"), FileProbe::Missing, FileProbe::Dir(Some(vec![entry("f", false)]))];
    assert_eq!(
        view_many(&paths, &vec![], probes, false),
        Ok("a.txt\n1:x\n2:y\n\ngone\n✗ File does not exist\n\nd\nf".to_string())
    );
}

#[test]
fn many_files_fail_when_nothing_is_shown() {
    let paths = vec!["big".to_string(), "bin".to_string(), "odd".to_string(), "locked".to_string()];
    let probes = vec![
        FileProbe::File { size: Some(6_000_000), bytes: None, text: None },
        FileProbe::File { size: Some(20), bytes: Some(vec![0u8; 20]), text: None },
        FileProbe::NotFile,
        FileProbe::File { size: None, bytes: None, text: None },
    ];
    assert_eq!(
        view_many(&paths, &vec![], probes, false),
        Err("big\n✗ File is too large (>5MB)\n\nbin\n✗ Binary file skipped\n\nodd\n✗ Path is not a file\n\nlocked\n✗ Permission denied. Cannot read file".to_string())
    );
}

#[test]
fn many_files_take_their_own_ranges() {
    let paths = vec!["a".to_string(), "b".to_string()];
    let probes = vec![text_file("1\n2\n3\n"), text_file("x\n")];
    assert_eq!(
        view_many(&paths, &vec![Some((9, -1))], probes, false),
        Ok("a\nStart line 9 exceeds content length (3 lines)\n\nb\n1:x".to_string())
    );
}

#[test]
fn size_limit_and_reports() {
    assert!(!too_large(5_242_880));
    assert!(too_large(5_242_881));
    assert_eq!(created_report("héllo"), "File created successfully with 6 bytes");
    assert!(exists_message("a.txt").starts_with("File already exists: a.txt. Do NOT retry `create`"));
}
