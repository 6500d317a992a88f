use nail_agent::store::{alias, data_dir, store_path};

#[test]
fn rejects_path_games_in_id() {
    // Path characters are dropped: the key stays flat.
    assert_eq!(alias("../evil"), "session:evil");
    assert_eq!(alias("nail-1"), "session:nail-1");
    assert_eq!(alias("a_b/c d"), "session:a_bcd");
}

#[test]
fn data_dir_prefers_explicit_settings() {
    assert_eq!(data_dir(Some("/data"), Some("/legacy"), Some("/home/u"), None), "/data");
    assert_eq!(data_dir(Some(""), Some("/legacy"), Some("/home/u"), None), "/legacy");
    assert_eq!(data_dir(None, None, Some("/home/u"), None), "/home/u/.config/nail-agent");
    assert_eq!(data_dir(None, None, Some("  "), Some("/p")), "/p/.config/nail-agent");
    assert_eq!(data_dir(None, None, None, None), "/tmp/.config/nail-agent");
}

#[test]
fn the_store_lives_under_the_data_dir() {
    assert_eq!(store_path("/d"), "/d/agdb/session.db");
}
