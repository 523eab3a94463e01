use cfind::report::{format_result, no_match_message, render_results, requested_kind};
use cfind::command::{plan_request, Request, RequestError};
use cfind::SearchResult;

fn result() -> SearchResult {
    SearchResult {
        name: "SharedSymbol".to_owned(),
        qualified_name: "Acme.Data.SharedSymbol".to_owned(),
        kind: "class".to_owned(),
        match_score: 10_000,
        namespace: Some("Acme.Data".to_owned()),
        parent: None,
        local_path: "/work/src/Shared.cs".to_owned(),
        relative_path: "src/Shared.cs".to_owned(),
        start_line: 2,
        end_line: 2,
        remote_url: Some("https://github.com/acme/shared/blob/main/src/Shared.cs".to_owned()),
        commit_url: None,
        git_state: Some("local-state(fetch-unknown)".to_owned()),
    }
}

#[test]
fn results_show_place_link_and_qualified_name() {
    let text = format_result(&result(), false, true, true);
    assert_eq!(
        text,
        "class  SharedSymbol  10000 local-state(fetch-unknown)\n  /work/src/Shared.cs:2\n  https://github.com/acme/shared/blob/main/src/Shared.cs\n  Acme.Data.SharedSymbol\n\n"
    );
    assert!(!text.contains("namespace Acme.Data"));
    let quiet = format_result(&result(), true, false, false);
    assert!(!quiet.contains("https://"));
    let mut plain = result();
    plain.qualified_name = plain.name.clone();
    plain.parent = Some("Outer".to_owned());
    plain.git_state = None;
    assert_eq!(
        format_result(&plain, true, false, false),
        "class  SharedSymbol in Outer  10000\n  /work/src/Shared.cs:2\n\n"
    );
}

#[test]
fn requested_kinds_are_normalized_and_checked() {
    let available = vec!["class".to_owned(), "namespace".to_owned(), "struct".to_owned()];
    assert_eq!(requested_kind(" Class ", &available).unwrap(), "class");
    let error = requested_kind("component", &available).unwrap_err();
    assert_eq!(
        error.message(),
        "unknown type 'component'; available types: class, namespace, struct"
    );
    assert_eq!(
        no_match_message("DefinitelyNoSuchSymbolQzx"),
        "no symbols matched 'DefinitelyNoSuchSymbolQzx'"
    );
}

#[test]
fn flags_decide_what_an_invocation_does() {
    assert_eq!(plan_request(true, false, false, false), Ok(Request::Index));
    assert_eq!(plan_request(false, true, true, false), Ok(Request::Status));
    assert_eq!(plan_request(false, false, false, false), Err(RequestError::QueryRequired));
    assert_eq!(
        RequestError::QueryRequired.message(),
        "query required (or use --type to list indexed kinds)"
    );
    assert_eq!(plan_request(false, false, false, true), Ok(Request::Kinds { rebuild: false }));
    assert_eq!(plan_request(true, false, true, false), Ok(Request::Search { rebuild: true }));
    assert_eq!(plan_request(false, false, true, true), Ok(Request::Kinds { rebuild: false }));
}

#[test]
fn rendering_joins_results_or_says_nothing_matched() {
    assert_eq!(
        render_results(&[], "Acme Widget", false, false, false),
        Err("no symbols matched 'Acme Widget'".to_owned())
    );
    let mut other = result();
    other.name = "Other".to_owned();
    other.qualified_name = "Other".to_owned();
    let both = render_results(&[result(), other.clone()], "x", true, false, false).unwrap();
    assert_eq!(
        both,
        format_result(&result(), true, false, false) + &format_result(&other, true, false, false)
    );
    assert!(both.starts_with("class  SharedSymbol  10000"));
}
