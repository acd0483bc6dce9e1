use bookexport::config::Config;

#[test]
fn test_default_config() {
    let config = Config::default();
    assert!(config.apple_books.enabled);
    assert!(config.kindle.enabled);
    assert_eq!(config.kindle.region, "us");
}

#[test]
fn test_expand_tilde() {
    let mut config = Config::default();
    config.output_path = "~/test/path".to_string();
    config.expand_paths();

    if let Some(home) = dirs::home_dir() {
        let expanded = home.join("test/path");
        assert_eq!(config.output_path, expanded.to_string_lossy());
    }
}

#[test]
fn test_expand_paths_leaves_plain_paths() {
    let mut config = Config::default();
    config.output_path = "/tmp/library.json".to_string();
    config.kindle.clippings_path = Some("relative/clippings.txt".to_string());
    config.expand_paths();
    assert_eq!(config.output_path, "/tmp/library.json");
    assert_eq!(config.kindle.clippings_path, Some("relative/clippings.txt".to_string()));
    assert!(config.apple_books.library_db.is_none());
}

#[test]
fn test_expand_paths_optional_fields() {
    let mut config = Config::default();
    config.apple_books.library_db = Some("~/books.sqlite".to_string());
    config.expand_paths();
    if let Some(home) = dirs::home_dir() {
        let expanded = home.join("books.sqlite");
        assert_eq!(config.apple_books.library_db, Some(expanded.to_string_lossy().to_string()));
    }
}
