use cfind::search::{
    name_similarity, path_distance, query_terms, search, search_filtered, search_filtered_terms,
    stale_git_state, typo_score, QueryError, SearchError, SymbolRow,
};
use std::time::{SystemTime, UNIX_EPOCH};
use strsim::osa_distance;

#[test]
fn path_distance_prefers_nearby_directories() {
    let from = "/code/shop/api";
    assert!(
        path_distance(from, false, "/code/shop/api/db/context.cs")
            < path_distance(from, false, "/code/other/db/context.cs")
    );
}

#[test]
fn path_distance_counts_steps_between_directories() {
    assert_eq!(path_distance("/code/shop/api", false, "/code/shop/api/db/context.cs"), 1);
    assert_eq!(path_distance("/code/shop/api", false, "/code/other/db/context.cs"), 4);
    assert_eq!(path_distance("/code/shop/api/main.rs", true, "/code/shop/api/lib.rs"), 0);
}

#[test]
fn matching_uses_explainable_score_tiers() {
    let exact = name_similarity("DatabaseContext", "DatabaseContext");
    let prefix = name_similarity("Database", "DatabaseContext");
    let boundary_substring = name_similarity("Context", "DatabaseContext");
    let ordinary_substring = name_similarity("base", "DatabaseContext");
    let abbreviation = name_similarity("DbCtx", "DatabaseContext");
    let typo = name_similarity("DatabsaeContext", "DatabaseContext");

    assert_eq!(exact, 10_000);
    assert!((9_000..10_000).contains(&prefix));
    assert!((8_000..9_000).contains(&boundary_substring));
    assert!((7_000..8_000).contains(&ordinary_substring));
    assert!((6_000..7_000).contains(&abbreviation));
    assert!((5_000..6_000).contains(&typo));
    assert!(exact > prefix);
    assert!(prefix > boundary_substring);
    assert!(boundary_substring > ordinary_substring);
    assert!(ordinary_substring > abbreviation);
    assert!(abbreviation > typo);
}

#[test]
fn score_formulas_give_exact_values() {
    // 9000 + 8 * 900 / 15
    assert_eq!(name_similarity("Database", "DatabaseContext"), 9_480);
    // 8000 + 7 * 900 / 15
    assert_eq!(name_similarity("Context", "DatabaseContext"), 8_420);
    // 7000 + 4 * 900 / 15
    assert_eq!(name_similarity("base", "DatabaseContext"), 7_240);
    // 6000 + 5 * 500 / 15
    assert_eq!(name_similarity("DbCtx", "DatabaseContext"), 6_166);
    // one transposition within a limit of two: 5000 + 250
    assert_eq!(name_similarity("DatabsaeContext", "DatabaseContext"), 5_250);
    assert_eq!(name_similarity("database_context", "DatabaseContext"), 10_000);
}

#[test]
fn typo_matching_is_bounded_by_query_length_and_distance() {
    assert_eq!(osa_distance("Cot", "Cat"), 1);
    assert_eq!(name_similarity("Cot", "Cat"), 0);

    assert_eq!(osa_distance("Artcle", "Article"), 1);
    assert!(name_similarity("Artcle", "Article") > 0);

    assert_eq!(osa_distance("abxdefyhij", "abcdefghij"), 2);
    assert!(name_similarity("abxdefyhij", "abcdefghij") > 0);

    assert_eq!(osa_distance("abxdefyhiz", "abcdefghij"), 3);
    assert_eq!(name_similarity("abxdefyhiz", "abcdefghij"), 0);

    assert_eq!(osa_distance("DatabaseContexts", "DatabaseContext"), 1);
    assert!(name_similarity("DatabaseContexts", "DatabaseContext") > 0);
}

#[test]
fn matching_rejects_unrelated_and_short_coincidental_names() {
    assert_eq!(name_similarity("DefinitelyNoSuchSymbolQzx", "ArticleDto"), 0);
    assert_eq!(name_similarity("id", "Build"), 0);
    assert_eq!(name_similarity("--", "DatabaseContext"), 0);
}

#[test]
fn query_terms_make_quoted_whitespace_equivalent_and_ignore_punctuation() {
    assert_eq!(
        query_terms(&["Acme Tools".to_owned(), "--".to_owned(), "Widget".to_owned()]).unwrap(),
        ["Acme", "Tools", "Widget"]
    );
    assert!(query_terms(&["::".to_owned()]).is_err());
}

#[test]
fn empty_queries_and_punctuation_only_queries_are_told_apart() {
    assert_eq!(query_terms(&["  ".to_owned()]).unwrap_err(), QueryError::Empty);
    assert_eq!(query_terms(&[]).unwrap_err(), QueryError::Empty);
    assert_eq!(
        query_terms(&["::".to_owned()]).unwrap_err(),
        QueryError::NoLetterOrNumber
    );
    assert_eq!(
        QueryError::NoLetterOrNumber.message(),
        "search query must contain a letter or number"
    );
}

#[test]
fn zero_limit_returns_no_results() {
    assert!(search_filtered_terms(
        &[],
        &["Anything".to_owned()],
        "/code",
        false,
        0,
        None,
        None,
        None,
        None,
    )
    .unwrap()
    .is_empty());
}

fn row(name: &str, qualified_name: &str, kind: &str, root: &str, path: &str) -> SymbolRow {
    SymbolRow {
        name: name.to_owned(),
        qualified_name: qualified_name.to_owned(),
        kind: kind.to_owned(),
        parent: None,
        namespace: None,
        start_line: 1,
        end_line: 1,
        relative_path: path.to_owned(),
        root: root.to_owned(),
        remote: None,
        revision: "abc123".to_owned(),
        branch: None,
        origin_branch: None,
        current_branch: None,
        last_fetch_at: None,
    }
}

fn search_fixture() -> Vec<SymbolRow> {
    [
        ("Widget", "Acme.Tools.Widget"),
        ("Tools", "Acme.Widget.Tools"),
        ("AcmeOnly", "AcmeOnly"),
    ]
    .into_iter()
    .map(|(name, qualified_name)| {
        row(name, qualified_name, "class", "/work/repo", &format!("src/{name}.cs"))
    })
    .collect()
}

#[test]
fn multi_term_ranking_is_order_independent_and_keeps_partial_matches() {
    let rows = search_fixture();
    let forward = search_filtered_terms(
        &rows,
        &["Acme".to_owned(), "Widget".to_owned()],
        "/work",
        false,
        10,
        None,
        Some("class"),
        None,
        None,
    )
    .unwrap();
    let reverse = search_filtered_terms(
        &rows,
        &["Widget".to_owned(), "Acme".to_owned()],
        "/work",
        false,
        10,
        None,
        Some("class"),
        None,
        None,
    )
    .unwrap();

    let forward_names = forward
        .iter()
        .map(|result| result.name.as_str())
        .collect::<Vec<_>>();
    let reverse_names = reverse
        .iter()
        .map(|result| result.name.as_str())
        .collect::<Vec<_>>();
    assert_eq!(forward_names, reverse_names);
    assert_eq!(forward_names[0], "Widget");
    assert!(forward_names.contains(&"AcmeOnly"));
    assert_eq!(forward_names.last(), Some(&"AcmeOnly"));

    let short_exact = search_filtered_terms(
        &rows,
        &["Widget".to_owned()],
        "/work",
        false,
        10,
        None,
        Some("class"),
        None,
        None,
    )
    .unwrap();
    assert_eq!(short_exact[0].name, "Widget");
    assert_eq!(short_exact[1].name, "Tools");
}

#[test]
fn results_report_scores_paths_and_links() {
    let mut widget = row("Widget", "Acme.Tools.Widget", "class", "/work/repo", "src/Widget.cs");
    widget.remote = Some("git@github.com:acme/repo.git".to_owned());
    widget.branch = Some("main".to_owned());
    widget.start_line = 3;
    widget.end_line = 9;
    let results = search(&[widget], "Widget", "/work", false, 10).unwrap();
    assert_eq!(results.len(), 1);
    let result = &results[0];
    assert_eq!(result.match_score, 10_000);
    assert_eq!(result.local_path, "/work/repo/src/Widget.cs");
    assert_eq!(result.qualified_name, "Acme.Tools.Widget");
    assert_eq!(
        result.remote_url.as_deref(),
        Some("https://github.com/acme/repo/blob/main/src/Widget.cs")
    );
    assert_eq!(
        result.commit_url.as_deref(),
        Some("https://github.com/acme/repo/blob/abc123/src/Widget.cs#L3-L9")
    );
    assert_eq!(result.git_state, None);
}

#[test]
fn qualified_matches_are_discounted_below_exact_short_names() {
    let rows = vec![
        row("Run", "Acme.Tools.Run", "method", "/work/repo", "src/a.cs"),
        row("Acme", "Acme", "namespace", "/work/repo", "src/b.cs"),
    ];
    let results = search(&rows, "Acme.Tools.Run", "/work", false, 10).unwrap();
    assert_eq!(results[0].name, "Run");
    assert_eq!(results[0].match_score, 9_900);
}

#[test]
fn nearer_files_rank_first_among_equal_matches() {
    let rows = vec![
        row("Widget", "Widget", "class", "/work/far", "deep/down/Widget.cs"),
        row("Widget", "Widget", "class", "/work/near", "Widget.cs"),
    ];
    let results = search(&rows, "Widget", "/work/near", false, 10).unwrap();
    assert_eq!(results[0].local_path, "/work/near/Widget.cs");
    assert_eq!(results[1].local_path, "/work/far/deep/down/Widget.cs");
}

#[test]
fn repeated_namespaces_collapse_per_repository_before_the_limit() {
    let rows = vec![
        row("Acme.Shared", "Acme.Shared", "namespace", "/work/first", "a.cs"),
        row("acme.shared", "acme.shared", "namespace", "/work/first", "b.cs"),
        row("AcmeShared", "AcmeShared", "namespace", "/work/first", "joined.cs"),
        row("Acme.Shared", "Acme.Shared", "namespace", "/work/second", "d.cs"),
        row("Acme.SharedOther", "Acme.SharedOther", "namespace", "/work/first", "c.cs"),
    ];
    let results = search_filtered(&rows, "Acme.Shared", "/work", false, 10, None, Some("namespace"), None, None).unwrap();
    let paths: Vec<&str> = results.iter().map(|result| result.relative_path.as_str()).collect();
    assert!(paths.contains(&"a.cs"));
    assert!(!paths.contains(&"b.cs"));
    assert!(paths.contains(&"d.cs"));
    assert_eq!(results.len(), 4);
    let limited = search_filtered(&rows, "Acme.Shared", "/work", false, 2, None, Some("namespace"), None, None).unwrap();
    assert_eq!(limited.len(), 2);
    assert!(limited.iter().all(|result| result.relative_path != "b.cs"));
}

#[test]
fn regex_filter_matches_nested_file_extensions() {
    let filter = regex::Regex::new(r"\.cs$").unwrap();
    assert!(filter.is_match("algorithms/Deflate/GzipDecompress.cs"));
    assert!(!filter.is_match("src/search.rs"));
}

#[test]
fn path_filters_select_results_and_invalid_filters_are_errors() {
    let rows = vec![
        row("Shared", "Shared", "class", "/work/repo", "algorithms/Deflate/Shared.cs"),
        row("Shared", "Shared", "struct", "/work/repo", "src/shared.rs"),
    ];
    let results = search_filtered(&rows, "Shared", "/work", false, 10, Some(r"\.cs$"), None, None, None).unwrap();
    assert_eq!(results.len(), 1);
    assert_eq!(results[0].relative_path, "algorithms/Deflate/Shared.cs");
    let error = search_filtered(&rows, "Shared", "/work", false, 10, Some("foo(bar"), None, None, None).unwrap_err();
    assert!(matches!(error, SearchError::InvalidFilter(_)));
    assert!(error.message().starts_with("invalid --filter regex"));
    let empty = search_filtered(&rows, "::", "/work", false, 10, None, None, None, None).unwrap_err();
    assert_eq!(empty, SearchError::Query(QueryError::NoLetterOrNumber));
}

#[test]
fn git_state_is_only_returned_when_stale() {
    let now = SystemTime::now().duration_since(UNIX_EPOCH).unwrap().as_secs();
    assert_eq!(
        stale_git_state(
            Some("git@example.com:acme/shop.git"),
            Some("main"),
            Some("main"),
            Some(now - 2 * 24 * 60 * 60),
            3 * 24 * 60 * 60,
            Some(now),
        ),
        None
    );
    assert_eq!(
        stale_git_state(
            Some("git@example.com:acme/shop.git"),
            Some("main"),
            Some("feature/payments"),
            Some(now - 5 * 24 * 60 * 60),
            3 * 24 * 60 * 60,
            Some(now),
        ),
        Some("local-state(not-origin-branch,fetch>5d)".to_owned())
    );
    assert_eq!(
        stale_git_state(
            Some("git@example.com:acme/shop.git"),
            Some("main"),
            Some("feature/payments"),
            None,
            0,
            Some(now),
        ),
        None
    );
}

#[test]
fn unknown_origin_and_fetch_are_reported() {
    assert_eq!(
        stale_git_state(Some("git@example.com:a/b.git"), None, Some("main"), None, 60, Some(100)),
        Some("local-state(origin-branch-unknown,fetch-unknown)".to_owned())
    );
    assert_eq!(stale_git_state(None, None, None, None, 60, Some(100)), None);
}

#[test]
fn typo_points_fall_with_each_edit() {
    assert_eq!(typo_score(1, 0), 5_250);
    assert_eq!(typo_score(1, 1), 5_000);
    assert_eq!(typo_score(2, 0), 5_500);
    assert_eq!(typo_score(2, 1), 5_250);
    assert_eq!(typo_score(1, 2), 0);
}

fn names(results: &[cfind::SearchResult]) -> Vec<String> {
    results.iter().map(|result| result.name.clone()).collect()
}

#[test]
fn words_mean_the_same_in_one_part_or_many() {
    let rows = search_fixture();
    let run = |parts: &[&str]| {
        let parts = parts.iter().map(|part| part.to_string()).collect::<Vec<_>>();
        search_filtered_terms(&rows, &parts, "/work", false, 10, None, None, None, None).unwrap()
    };
    let one = run(&["Widget Acme"]);
    assert_eq!(names(&one), names(&run(&["Acme", "Widget"])));
    assert_eq!(names(&one), names(&run(&["Widget", "Acme"])));
    let whole = search_filtered(&rows, "Acme Tools Widget", "/work", false, 10, None, None, None, None).unwrap();
    assert_eq!(names(&whole), names(&run(&["Acme", "Tools", "Widget"])));
    assert!(matches!(
        search_filtered_terms(&rows, &[" ".to_owned()], "/work", false, 10, None, None, None, None),
        Err(SearchError::Query(QueryError::Empty))
    ));
    assert!(matches!(
        search_filtered_terms(&rows, &["-".to_owned()], "/work", false, 10, None, None, None, None),
        Err(SearchError::Query(QueryError::NoLetterOrNumber))
    ));
}

#[test]
fn results_are_selected_rows_within_the_limit() {
    let mut rows = search_fixture();
    rows.push(row("Widget", "Acme.Widget", "method", "/work/repo", "lib/Widget.cs"));
    let results = search_filtered(&rows, "Widget", "/work", false, 10, Some("^src/"), Some("class"), None, None).unwrap();
    assert!(!results.is_empty());
    for result in &results {
        assert_eq!(result.kind, "class");
        assert!(result.relative_path.starts_with("src/"));
        assert!(result.match_score <= 10_000);
        assert_eq!(result.local_path, format!("/work/repo/{}", result.relative_path));
        assert_eq!(result.git_state, None);
    }
    let all = search(&rows, "Widget", "/work", false, 10).unwrap();
    let first_two = search(&rows, "Widget", "/work", false, 2).unwrap();
    assert_eq!(first_two.len(), 2);
    assert_eq!(names(&first_two), names(&all[..2]));
}
