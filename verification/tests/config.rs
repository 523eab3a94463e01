use cfind::config::{default_index_path, platform_data_home, root_setting, Config, ConfigError, Platform, SupportedLanguage};
use std::path::Path;

#[test]
fn recognizes_supported_extensions() {
    assert_eq!(
        SupportedLanguage::from_path("src/lib.rs"),
        Some(SupportedLanguage::Rust)
    );
    assert_eq!(
        SupportedLanguage::from_path("web/view.tsx"),
        Some(SupportedLanguage::TypeScript)
    );
    assert_eq!(SupportedLanguage::from_path("README.md"), None);
}

#[test]
fn index_namespaces_are_stable_and_independent() {
    let data_home = "/home/user/.local/share";
    let first = default_index_path(Platform::Linux, data_home, "/work/first");
    let first_again = default_index_path(Platform::Linux, data_home, "/work/first");
    let second = default_index_path(Platform::Linux, data_home, "/work/second");

    assert_eq!(first, first_again);
    assert_ne!(first, second);
    assert_eq!(
        Path::new(&first).parent().unwrap(),
        Path::new(&second).parent().unwrap()
    );
    assert_eq!(Path::new(&first).extension().unwrap(), "sqlite");
    assert_eq!(
        Path::new(&first).parent().unwrap(),
        Path::new("/home/user/.local/share/cfind/indexes")
    );
}

#[test]
fn language_aliases_ignore_case_and_white_space() {
    assert_eq!(SupportedLanguage::parse(" C# "), Some(SupportedLanguage::CSharp));
    assert_eq!(SupportedLanguage::parse("RS"), Some(SupportedLanguage::Rust));
    assert_eq!(SupportedLanguage::parse("ts"), Some(SupportedLanguage::TypeScript));
    assert_eq!(SupportedLanguage::parse("js"), Some(SupportedLanguage::JavaScript));
    assert_eq!(SupportedLanguage::parse("go"), None);
    assert_eq!(SupportedLanguage::CSharp.as_str(), "csharp");
}

#[test]
fn configuration_defaults_and_thresholds() {
    let config = Config::from_values(Platform::Linux, "/work", true, None, None, None, None, Some("/home/user"), None).unwrap();
    assert_eq!(config.root, "/work");
    assert_eq!(config.languages.len(), 4);
    assert_eq!(config.stale_after, 6 * 60 * 60);
    assert_eq!(config.warn_after(), 6 * 60 * 60);
    assert_eq!(config.automatic_rebuild_after(), 18 * 60 * 60);
    assert_eq!(config.fetch_stale_after(), 72 * 60 * 60);
    assert!(config
        .index_path
        .starts_with("/home/user/.local/share/cfind/indexes/"));
    assert!(config.index_path.ends_with(".sqlite"));
}

#[test]
fn configuration_errors_are_reported_in_order() {
    assert_eq!(
        Config::from_values(Platform::Linux, "/work", false, Some("go"), Some(""), None, None, None, None).unwrap_err(),
        ConfigError::RootNotDirectory("/work".to_owned())
    );
    assert_eq!(
        Config::from_values(Platform::Linux, "/work", true, Some("rust,go"), Some(""), None, None, None, None).unwrap_err(),
        ConfigError::UnsupportedLanguage("go".to_owned())
    );
    assert_eq!(
        Config::from_values(Platform::Linux, "/work", true, Some("rust"), Some(""), None, None, None, None).unwrap_err(),
        ConfigError::EmptyIndexPath
    );
    assert_eq!(
        Config::from_values(Platform::Linux, "/work", true, Some("rust"), None, None, None, None, None).unwrap_err(),
        ConfigError::HomeNotSet
    );
    let error = Config::from_values(Platform::Linux, "/work", true, Some("rust"), Some("/i.sqlite"), Some("soon"), None, None, None)
        .unwrap_err();
    assert_eq!(error, ConfigError::InvalidStaleAfterHours);
    assert!(error
        .message()
        .contains("CFIND_STALE_AFTER_HOURS must be a non-negative number of hours"));
    let disabled = Config::from_values(Platform::Linux, "/work", true, Some("rs, cs,rs"), Some("/i.sqlite"), Some("0"), None, None, None)
        .unwrap();
    assert_eq!(disabled.stale_after, 0);
    assert_eq!(disabled.automatic_rebuild_after(), 0);
    assert_eq!(disabled.languages.len(), 2);
    assert_eq!(disabled.index_path, "/i.sqlite");
}

#[test]
fn the_root_setting_must_be_present_and_not_empty() {
    assert_eq!(root_setting(Platform::Linux, None), Err(ConfigError::RootRequired(Platform::Linux)));
    assert_eq!(root_setting(Platform::Linux, Some("")), Err(ConfigError::RootRequired(Platform::Linux)));
    assert_eq!(root_setting(Platform::Linux, Some("/home/user/code")), Ok("/home/user/code".to_owned()));
    assert_eq!(
        ConfigError::RootRequired(Platform::Linux).message(),
        "CFIND_ROOT is required; set it to the directory containing your repositories, for example: export CFIND_ROOT=\"$HOME/code\""
    );
    assert_eq!(
        ConfigError::RootRequired(Platform::Windows).message(),
        "CFIND_ROOT is required; set it to the directory containing your repositories, for example: $env:CFIND_ROOT=\"C:\\path\\to\\code\""
    );
}

#[test]
fn canonical_language_names_parse_back() {
    for language in [
        SupportedLanguage::Rust,
        SupportedLanguage::JavaScript,
        SupportedLanguage::TypeScript,
        SupportedLanguage::CSharp,
    ] {
        assert_eq!(SupportedLanguage::parse(language.as_str()), Some(language));
        let shouted = format!(" {} ", language.as_str().to_ascii_uppercase());
        assert_eq!(SupportedLanguage::parse(&shouted), Some(language));
    }
}

#[test]
fn each_platform_keeps_indexes_in_its_user_data_directory() {
    assert_eq!(
        platform_data_home(Platform::Linux, Some("/xdg"), Some("/home/user"), None),
        Ok("/xdg".to_owned())
    );
    assert_eq!(
        platform_data_home(Platform::Linux, Some(""), Some("/home/user"), None),
        Ok("/home/user/.local/share".to_owned())
    );
    assert_eq!(
        platform_data_home(Platform::MacOs, Some("/xdg"), Some("/Users/me"), None),
        Ok("/Users/me/Library/Application Support".to_owned())
    );
    assert_eq!(
        platform_data_home(Platform::MacOs, None, None, None),
        Err(ConfigError::HomeNotSet)
    );
    assert_eq!(
        platform_data_home(Platform::Windows, None, Some("/home/user"), Some("C:\\Users\\me\\AppData\\Local")),
        Ok("C:\\Users\\me\\AppData\\Local".to_owned())
    );
    assert_eq!(
        platform_data_home(Platform::Windows, None, Some("/home/user"), Some("")),
        Err(ConfigError::LocalAppDataNotSet)
    );
    let windows = default_index_path(Platform::Windows, "C:\\Users\\me\\AppData\\Local", "C:\\code");
    assert!(windows.starts_with("C:\\Users\\me\\AppData\\Local\\cfind/indexes\\"));
    assert!(windows.ends_with(".sqlite"));
    assert_eq!(windows.len(), "C:\\Users\\me\\AppData\\Local\\cfind/indexes\\".len() + 39);
    assert!(default_index_path(Platform::Windows, "C:", "C:\\code").starts_with("C:cfind/indexes\\"));
    let mac = Config::from_values(Platform::MacOs, "/work", true, None, None, None, None, Some("/Users/me"), None).unwrap();
    assert!(mac.index_path.starts_with("/Users/me/Library/Application Support/cfind/indexes/"));
    assert_eq!(
        Config::from_values(Platform::Windows, "/work", true, None, None, None, None, Some("/home/user"), None).unwrap_err(),
        ConfigError::LocalAppDataNotSet
    );
    assert_eq!(
        ConfigError::LocalAppDataNotSet.message(),
        "LOCALAPPDATA is not set; set CFIND_INDEX to choose an index location"
    );
}

#[test]
fn extension_table_agrees_with_paths() {
    for extension in ["rs", "JS", "tsx", "Cs", "md", ""] {
        assert_eq!(
            SupportedLanguage::from_extension(&extension.chars().collect::<Vec<_>>()),
            SupportedLanguage::from_path(&format!("f.{extension}"))
        );
    }
}
