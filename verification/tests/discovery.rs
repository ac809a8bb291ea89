use dendrite::discovery::{DiscoveryConfig, ParseError};

#[test]
fn test_default_config() {
    let config = DiscoveryConfig::default();
    assert!(config.extensions.contains(&"zig".to_string()));
    assert!(config.extensions.contains(&"rs".to_string()));
    assert!(config.exclude_patterns.contains(&"test".to_string()));
    assert!(config.exclude_patterns.contains(&"zig-cache".to_string()));
    assert!(!config.follow_symlinks);
}

#[test]
fn test_with_extensions() {
    let config = DiscoveryConfig::with_extensions(vec!["s".into(), "S".into()]);
    assert_eq!(config.extensions.len(), 2);
    assert!(config.extensions.contains(&"s".to_string()));
}

#[test]
fn test_add_extension() {
    let config = DiscoveryConfig::default().add_extension("s".into()).add_extension("S".into());
    assert!(config.extensions.contains(&"s".to_string()));
    assert!(config.extensions.contains(&"S".to_string()));
}

#[test]
fn test_should_include() {
    let config = DiscoveryConfig::default();
    assert!(config.should_include("main.zig"));
    assert!(config.should_include("lib.rs"));
    assert!(!config.should_include("README.md"));
    assert!(!config.should_include("config.toml"));
}

#[test]
fn test_should_exclude() {
    let config = DiscoveryConfig::default();
    assert!(config.should_exclude("test/main.zig"));
    assert!(config.should_exclude("zig-cache/foo.zig"));
    assert!(config.should_exclude("target/debug/foo.rs"));
    assert!(!config.should_exclude("src/main.zig"));
}

#[test]
fn test_parse_error_creation() {
    let path = "/test/file.zig".to_string();
    let err = ParseError::new(path.clone(), "test error".to_string());
    assert_eq!(err.path, path);
    assert_eq!(err.error, "test error");
}

#[test]
fn extensions_follow_the_last_dot_of_the_file_name() {
    let config = DiscoveryConfig::default();
    assert!(config.should_include("/src/a.b/c.zig"));
    assert!(!config.should_include("/src/.zig"));
    assert!(!config.should_include("/src/zig"));
    assert!(config.should_include("/src/a.zig/"));
}

#[test]
fn exclusion_matches_whole_components_only() {
    let config = DiscoveryConfig::default().add_exclude_pattern("src".into());
    assert!(!config.should_exclude("/home/test_fixtures/a.zig"));
    assert!(config.should_exclude("/home/x/src/a.zig"));
    assert!(config.should_exclude("./.git/config"));
    assert!(!config.should_exclude("/home/x/src.zig"));
}

#[test]
fn exclusion_looks_below_the_root_only() {
    let config = DiscoveryConfig::default().add_exclude_pattern("src".into());
    assert!(!config.should_exclude_under("/home/src/project", "/home/src/project/main.zig"));
    assert!(config.should_exclude_under("/home/src/project", "/home/src/project/src/main.zig"));
    assert!(config.should_exclude_under("/home/src/project/", "/home/src/project/src/main.zig"));
    assert!(config.should_exclude_under("/home/src/proj", "/home/src/project/main.zig"));
}
