use quickfox_core::config::{
    content_dir_candidates, ConfigStore, ConfigValidationError, EngineMap, HotkeyConfig,
    IndexPerformanceMode, QuickFoxConfig, WebSearchEngineConfig,
};
use quickfox_core::platform::PlatformKind;

#[test]
fn default_index_config_enables_balanced_local_content_indexing() {
    let config = QuickFoxConfig::default_with_index_dirs(vec!["/home/frank".to_owned()], Vec::new());

    assert_eq!(config.index.performance_mode, IndexPerformanceMode::Balanced);
    assert!(config.index.respect_project_ignores);
    assert_eq!(config.index.content_max_file_bytes, 2 * 1024 * 1024);
    assert!(config.index.watcher_enabled);
}

#[test]
fn windows_default_content_index_dirs_only_include_desktop() {
    let candidates = content_dir_candidates("C:\\Users\\frank", PlatformKind::Windows);
    let config = QuickFoxConfig::default_with_index_dirs(vec!["C:\\Users\\frank".to_owned()], candidates);

    assert!(config
        .index
        .content_include_dirs
        .iter()
        .all(|path| path.ends_with("\\Desktop") || path.ends_with("\\桌面")));
}

#[test]
fn macos_default_content_index_dirs_include_existing_hot_paths() {
    let candidates = content_dir_candidates("/Users/frank", PlatformKind::Macos);
    let config = QuickFoxConfig::default_with_index_dirs(vec!["/Users/frank".to_owned()], candidates);

    assert!(config.index.content_include_dirs.iter().all(|path| {
        path.ends_with("/Desktop")
            || path.ends_with("/Documents")
            || path.ends_with("/Downloads")
            || path.ends_with("/workspace")
    }));
}

#[test]
fn validate_reports_web_search_templates_missing_query_placeholder() {
    let mut config = QuickFoxConfig::default_with_index_dirs(vec!["/home/frank".to_owned()], Vec::new());
    config.web_search.engines.insert(
        "bad".to_owned(),
        WebSearchEngineConfig {
            name: "Broken".to_owned(),
            url: "https://example.com/search".to_owned(),
        },
    );

    let errors = config.validate();

    assert_eq!(
        errors,
        vec![ConfigValidationError::WebSearchTemplateMissingQuery {
            prefix: "bad".to_owned()
        }]
    );
    assert!(!config.valid_web_search_engines().contains_key("bad"));
}

#[test]
fn validate_rejects_invalid_wake_shortcut() {
    let mut config = QuickFoxConfig::default_with_index_dirs(vec!["/home/frank".to_owned()], Vec::new());
    config.hotkey.wake_shortcut = "Shift".to_owned();

    assert!(config
        .validate()
        .contains(&ConfigValidationError::InvalidWakeShortcut {
            value: "Shift".to_owned()
        }));
}

#[test]
fn default_configuration_values() {
    let config = QuickFoxConfig::default_with_index_dirs(vec!["/home/frank".to_owned()], Vec::new());
    assert_eq!(config.index.include_dirs, vec!["/home/frank"]);
    assert_eq!(config.index.exclude_patterns, vec!["node_modules", "target", ".git"]);
    assert_eq!(config.query.regex_prefix, "re:");
    assert!(!config.command.enabled);
    assert_eq!(config.command.prefix, ">");
    assert_eq!(config.history.command_max_entries, 15);
    assert_eq!(config.history.input_max_entries, 15);
    assert!(config.history.input_history_enabled);
    assert_eq!(config.hotkey.wake_shortcut, "Shift+Shift");
    assert_eq!(config.results.limit, 20);
    assert_eq!(
        config.web_search.engines.get("ddg").unwrap().url,
        "https://duckduckgo.com/?q={query}"
    );
    let prefixes: Vec<&str> = config.web_search.engines.entries().iter().map(|(p, _)| p.as_str()).collect();
    assert_eq!(prefixes, vec!["bd", "ddg", "g"]);
    assert!(config.validate().is_empty());
    assert_eq!(HotkeyConfig::default().wake_shortcut, "Shift+Shift");
}

#[test]
fn engine_map_replaces_an_existing_prefix() {
    let mut engines = EngineMap::new();
    engines.insert("g".to_owned(), WebSearchEngineConfig { name: "A".to_owned(), url: "x".to_owned() });
    engines.insert("g".to_owned(), WebSearchEngineConfig { name: "B".to_owned(), url: "y".to_owned() });
    assert_eq!(engines.len(), 1);
    assert_eq!(engines.get("g").unwrap().name, "B");
    assert!(engines.get("h").is_none());
}

#[test]
fn content_candidates_join_like_paths() {
    assert_eq!(
        content_dir_candidates("/home/u/", PlatformKind::Linux),
        vec!["/home/u/Desktop", "/home/u/Documents", "/home/u/Downloads", "/home/u/workspace"]
    );
    assert_eq!(
        content_dir_candidates("C:\\Users\\u", PlatformKind::Windows),
        vec!["C:\\Users\\u\\Desktop", "C:\\Users\\u\\桌面"]
    );
    assert_eq!(ConfigStore::new("/tmp/q.toml".to_owned()).path(), "/tmp/q.toml");
}
