use cfind::config::{Config, Platform, SupportedLanguage};
use cfind::git::TrackedFile;
use cfind::index::{
    configured_languages, git_metadata_path, index_metadata, index_state, index_summary,
    prepare_index, reindex_command, repository_roots, select_source_files, sidecar_paths,
    status_with_counts, status_without_counts, temporary_index_name, warning_period, IndexState,
    IndexStats, StoredIndex, INDEX_VERSION,
};

fn test_config(root: &str, stale_after: u64) -> Config {
    Config {
        root: root.to_owned(),
        index_path: format!("{root}/index.sqlite"),
        languages: vec![SupportedLanguage::Rust],
        stale_after,
    }
}

fn stored(config: &Config, created_at: u64) -> StoredIndex {
    let metadata = index_metadata(config, created_at);
    StoredIndex {
        tables_present: true,
        version: Some(metadata.version),
        root: Some(metadata.root),
        languages: Some(metadata.languages),
        created_at: Some(metadata.created_at),
    }
}

#[test]
fn missing_index_is_reported() {
    let config = test_config("/work", 6 * 60 * 60);
    assert_eq!(index_state(&None, &config, 1_000), IndexState::Missing);
}

#[test]
fn index_age_controls_warning_and_rebuild_states() {
    let config = test_config("/work", 10);
    let now = 1_000_000;
    assert_eq!(index_state(&Some(stored(&config, now)), &config, now), IndexState::Fresh);
    assert_eq!(index_state(&Some(stored(&config, now - 11)), &config, now), IndexState::Warn);
    assert_eq!(index_state(&Some(stored(&config, now - 31)), &config, now), IndexState::Rebuild);

    let disabled_config = test_config("/work", 0);
    assert_eq!(
        index_state(&Some(stored(&disabled_config, now - 1_000_000)), &disabled_config, now),
        IndexState::Fresh
    );
}

#[test]
fn index_version_is_part_of_the_configuration() {
    let config = test_config("/work", 60);
    let mut index = stored(&config, 100);
    assert_eq!(index.version.as_deref(), Some("9"));
    assert_eq!(INDEX_VERSION, 9);
    assert_eq!(index_state(&Some(index.clone()), &config, 100), IndexState::Fresh);
    index.version = Some("0".to_owned());
    assert_eq!(index_state(&Some(index), &config, 100), IndexState::ConfigurationMismatch);
}

#[test]
fn root_languages_tables_and_creation_time_must_match() {
    let config = test_config("/work", 60);
    let other_root = test_config("/elsewhere", 60);
    assert_eq!(
        index_state(&Some(stored(&config, 100)), &other_root, 100),
        IndexState::ConfigurationMismatch
    );
    let mut more_languages = test_config("/work", 60);
    more_languages.languages.push(SupportedLanguage::CSharp);
    assert_eq!(
        index_state(&Some(stored(&config, 100)), &more_languages, 100),
        IndexState::ConfigurationMismatch
    );
    let mut no_tables = stored(&config, 100);
    no_tables.tables_present = false;
    assert_eq!(index_state(&Some(no_tables), &config, 100), IndexState::ConfigurationMismatch);
    let mut bad_time = stored(&config, 100);
    bad_time.created_at = Some("yesterday".to_owned());
    assert_eq!(index_state(&Some(bad_time), &config, 100), IndexState::ConfigurationMismatch);
}

#[test]
fn language_sets_are_recorded_sorted_by_name() {
    let mut config = test_config("/work", 60);
    config.languages = vec![
        SupportedLanguage::TypeScript,
        SupportedLanguage::Rust,
        SupportedLanguage::CSharp,
        SupportedLanguage::JavaScript,
    ];
    assert_eq!(configured_languages(&config), "csharp,javascript,rust,typescript");
    config.languages = vec![SupportedLanguage::Rust];
    assert_eq!(configured_languages(&config), "rust");
}

#[test]
fn only_tracked_files_in_configured_languages_are_parsed() {
    let files: Vec<TrackedFile> = ["src/lib.rs", "web/app.ts", "README.md", "Api/Context.CS"]
        .into_iter()
        .map(|path| TrackedFile { path: path.to_owned() })
        .collect();
    let selected = select_source_files(&files, &[SupportedLanguage::Rust, SupportedLanguage::CSharp]);
    let chosen: Vec<(&str, SupportedLanguage)> = selected
        .iter()
        .map(|file| (file.path.as_str(), file.language))
        .collect();
    assert_eq!(
        chosen,
        [
            ("src/lib.rs", SupportedLanguage::Rust),
            ("Api/Context.CS", SupportedLanguage::CSharp)
        ]
    );
    let mut stats = IndexStats::new(2);
    stats.add_source_files(selected.len());
    stats.add_source_files(3);
    stats.symbols = 7;
    stats.elapsed_ms = 12;
    assert_eq!(
        index_summary(&stats),
        "Indexed 7 symbols from 5 source files in 2 repositories (5 parsed) in 12 ms."
    );
}

#[test]
fn repository_roots_are_unique_and_in_path_order() {
    let found = vec![
        "/code/b".to_owned(),
        "/code/a/".to_owned(),
        "/code/a".to_owned(),
        "/code/a/nested".to_owned(),
    ];
    let roots = repository_roots("/code", Some("/code/a\n"), &found);
    assert_eq!(roots, ["/code/a", "/code/a/nested", "/code/b"]);
    let unrelated = repository_roots("/code", Some("/elsewhere"), &[]);
    assert!(unrelated.is_empty());
    let enclosing = repository_roots("/code/a/src", Some("/code/a"), &[]);
    assert_eq!(enclosing, ["/code/a"]);
}

#[test]
fn index_preparation_follows_the_index_state() {
    let missing = prepare_index(IndexState::Missing, "/data/index.sqlite");
    assert!(missing.rebuild && !missing.warn);
    assert_eq!(
        missing.notices,
        ["No index found.", "Creating SQLite index at /data/index.sqlite."]
    );
    let changed = prepare_index(IndexState::ConfigurationMismatch, "/i");
    assert!(changed.rebuild);
    assert_eq!(changed.notices, ["Index configuration changed; rebuilding SQLite index."]);
    let old = prepare_index(IndexState::Rebuild, "/i");
    assert!(old.rebuild);
    assert!(old.notices[0].contains("automatic rebuild threshold"));
    let warn = prepare_index(IndexState::Warn, "/i");
    assert!(!warn.rebuild && warn.warn && warn.notices.is_empty());
    let fresh = prepare_index(IndexState::Fresh, "/i");
    assert!(!fresh.rebuild && !fresh.warn && fresh.notices.is_empty());
}

#[test]
fn warnings_and_rebuild_commands_are_spelled_out() {
    let mut config = test_config("/work/it's", 60 * 60);
    assert_eq!(warning_period(&config), "1 hour");
    config.stale_after = 6 * 60 * 60;
    assert_eq!(warning_period(&config), "6 hours");
    assert_eq!(
        reindex_command(Platform::Linux, &config),
        "CFIND_ROOT='/work/it'\\''s' CFIND_INDEX='/work/it'\\''s/index.sqlite' cfind --index"
    );
    assert_eq!(
        reindex_command(Platform::Windows, &config),
        "$env:CFIND_ROOT='/work/it''s'; $env:CFIND_INDEX='/work/it''s/index.sqlite'; cfind --index"
    );
}

#[test]
fn status_and_file_names_are_spelled_out() {
    assert_eq!(
        status_without_counts(IndexState::Missing, "/i.sqlite").as_deref(),
        Some("No index at /i.sqlite")
    );
    assert_eq!(
        status_without_counts(IndexState::ConfigurationMismatch, "/i.sqlite").as_deref(),
        Some("Index configuration does not match at /i.sqlite")
    );
    assert_eq!(status_without_counts(IndexState::Warn, "/i.sqlite"), None);
    assert_eq!(
        status_with_counts("/i.sqlite", 1, 1, 2),
        "Index: /i.sqlite\nRepositories: 1\nFiles: 1\nSymbols: 2"
    );
    assert_eq!(temporary_index_name("index.sqlite", 42, 0), ".index.sqlite.tmp-42-0");
    assert_eq!(
        sidecar_paths("/i.sqlite"),
        ("/i.sqlite-wal".to_owned(), "/i.sqlite-shm".to_owned())
    );
    assert_eq!(git_metadata_path("/repo", ".git/FETCH_HEAD\n"), "/repo/.git/FETCH_HEAD");
    assert_eq!(git_metadata_path("/repo", "/abs/.git/FETCH_HEAD"), "/abs/.git/FETCH_HEAD");
}
