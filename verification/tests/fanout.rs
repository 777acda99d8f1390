//! The fan-out over both providers.

use web_agent_research::shared::types::search::{
    SearchInput, SearchOutput, SearchProvider, SearchProviderError, SearchResult,
};
use web_agent_research::shared::web_engine_search::ddg::{map_ddg_response, DdgLeg, DdgStep};
use web_agent_research::shared::web_engine_search::fanout::{
    all_failed_message, error_detail, map_timeout, map_transport_error, FanOut, Leg, Wait,
};
use web_agent_research::shared::web_engine_search::startpage::map_startpage_response;
use web_agent_research::time::Duration;

#[test]
fn fanout_all_failed_message_format() {
    let msg = all_failed_message(&[
        ("duckduckgo".to_string(), "boom".to_string()),
        ("startpage".to_string(), "bust".to_string()),
    ]);
    assert_eq!(msg, "duckduckgo: boom; startpage: bust");
}

#[test]
fn fanout_timeout_beats_challenge() {
    let err = map_timeout(SearchProvider::DuckDuckGo, "q");
    assert_eq!(err.http_status(), 504);
    assert_eq!(err.code(), "timeout");
}

#[test]
fn fanout_http_500_maps_503() {
    let err = map_ddg_response(500, "boom", "q").unwrap_err();
    assert_eq!(err.http_status(), 503);
    let err = map_startpage_response(500, "boom", "https://x/", "q").unwrap_err();
    assert_eq!(err.http_status(), 503);
}

#[test]
fn fanout_validation_status_codes() {
    assert_eq!(SearchProviderError::EmptyQuery.http_status(), 400);
    assert_eq!(SearchProviderError::EmptyQuery.code(), "empty_query");
    assert_eq!(
        SearchProviderError::TooManyQueries { got: 9, max: 8 }.http_status(),
        400
    );
    assert_eq!(
        SearchProviderError::AllFailed {
            failures: "a: b".to_string()
        }
        .http_status(),
        503
    );
    assert_eq!(SearchProviderError::EmptyQuery.provider(), None);
}

fn ddg_rows(url: &str, title: &str, snippet: &str) -> String {
    format!(
        "<html><body><div class=\"result\"><h2 class=\"result__title\"><a class=\"result__a\" href=\"{url}\">{title}</a></h2><div class=\"result__snippet\">{snippet}</div></div></body></html>"
    )
}

fn sp_rows(url: &str, title: &str, snippet: &str) -> String {
    format!(
        "<html><body><div class=\"result\"><a class=\"result-link\" href=\"{url}\"><h2 class=\"wgl-title\">{title}</h2></a><p class=\"description\">{snippet}</p></div></body></html>"
    )
}

/// Runs one leg against canned pages: a status and a body for each provider.
fn run_leg(
    query: &str,
    leg: Leg,
    ddg: &(u16, String),
    sp: &(u16, String),
) -> Result<Vec<SearchResult>, SearchProviderError> {
    match leg.provider {
        SearchProvider::Startpage => {
            map_startpage_response(sp.0, &sp.1, "https://www.startpage.com/sp/search", query)
        }
        SearchProvider::DuckDuckGo => match DdgLeg::start(query, None).on_response(ddg.0, &ddg.1) {
            DdgStep::Done(outcome) => outcome,
            DdgStep::Post(_) => panic!("the canned page has no continuation"),
        },
    }
}

fn fan_out(
    queries: &[&str],
    ddg: (u16, String),
    sp: (u16, String),
) -> Result<SearchOutput, SearchProviderError> {
    let queries: Vec<String> = queries.iter().map(|q| q.to_string()).collect();
    let input = SearchInput::validate(queries.clone(), Some(15), None).expect("valid");
    let mut run = FanOut::start(input);
    for leg in run.legs() {
        let outcome = run_leg(&queries[leg.query_index], leg, &ddg, &sp);
        run.on_leg(leg, outcome);
    }
    assert!(matches!(run.wait(&Duration::from_secs(1)), Wait::Finish));
    run.finish()
}

const SHARED: &str = "https://example.com/shared";

#[test]
fn fanout_fanout_merges_across_queries_and_providers() {
    let out = fan_out(
        &["q one", "q two", "q three"],
        (200, ddg_rows(SHARED, "Shared DDG", "ddg text")),
        (200, sp_rows(SHARED, "Shared SP", "sp text")),
    )
    .expect("partial overlap still merges");
    assert_eq!(out.stats.legs, 6);
    assert_eq!(out.stats.queries, 3);
    assert!(out.errors.is_empty(), "unexpected errors: {:?}", out.errors);
    let top = out
        .results
        .iter()
        .find(|r| r.canonical_url == "example.com/shared")
        .expect("shared group");
    assert_eq!(top.providers.len(), 2);
    assert_eq!(top.queries.len(), 3);
    assert_eq!(top.hit_count, 6);
    assert_eq!(out.stats.raw_hits, 6);
}

#[test]
fn fanout_fanout_duplicate_queries_keep_separate_legs() {
    let out = fan_out(
        &["same query", "same query"],
        (200, ddg_rows(SHARED, "Shared DDG", "ddg text")),
        (200, sp_rows(SHARED, "Shared SP", "sp text")),
    )
    .expect("duplicate queries still merge");
    assert_eq!(out.stats.legs, 4);
    assert_eq!(out.stats.raw_hits, 4);
    assert!(out.errors.is_empty(), "unexpected errors: {:?}", out.errors);
    let top = out
        .results
        .iter()
        .find(|r| r.canonical_url == "example.com/shared")
        .expect("shared group");
    assert_eq!(top.hit_count, 4);
}

#[test]
fn fanout_fanout_partial_failure_still_ok() {
    let out = fan_out(
        &["q one", "q two"],
        (200, ddg_rows(SHARED, "Shared DDG", "ddg text")),
        (500, "unused".to_string()),
    )
    .expect("partial success is Ok");
    assert_eq!(out.stats.legs, 4);
    assert_eq!(
        out.errors.len(),
        2,
        "one SP error per query: {:?}",
        out.errors
    );
    assert!(out.errors.iter().all(|e| e.http_status() == 503));
    assert!(!out.results.is_empty());
}

#[test]
fn fanout_fanout_all_fail_returns_all_failed_503() {
    let err = fan_out(
        &["q one"],
        (404, "nope".to_string()),
        (500, "unused".to_string()),
    )
    .expect_err("all legs fail -> AllFailed");
    assert_eq!(err.http_status(), 503);
    assert_eq!(err.code(), "all_failed");
}

fn started(queries: &[&str]) -> FanOut {
    let queries: Vec<String> = queries.iter().map(|q| q.to_string()).collect();
    FanOut::start(SearchInput::validate(queries, None, None).expect("valid"))
}

#[test]
fn soft_deadline_needs_one_success() {
    let mut run = started(&["q"]);
    match run.wait(&Duration::from_secs(2)) {
        Wait::LegOrSoft(left) => assert_eq!(left, Duration::from_secs(3)),
        other => panic!("the soft deadline comes first, got {other:?}"),
    }
    assert!(!run.on_soft_deadline(), "no success, no early end");
    match run.wait(&Duration::from_secs(6)) {
        Wait::LegOrHard(left) => assert_eq!(left, Duration::from_secs(24)),
        other => panic!("the hard deadline is next, got {other:?}"),
    }
    assert!(matches!(run.wait(&Duration::from_secs(30)), Wait::Finish));

    let mut lucky = started(&["q"]);
    let legs = lucky.legs();
    lucky.on_leg(legs[0], Ok(vec![]));
    assert!(lucky.on_soft_deadline(), "one success is enough");
}

#[test]
fn legs_without_report_are_timeouts() {
    let run = started(&["q one", "q two"]);
    let err = run.finish().expect_err("nothing came back");
    assert_eq!(err.code(), "all_failed");
}

#[test]
fn completion_order_does_not_matter() {
    let outcome = |leg: Leg| {
        run_leg(
            "q",
            leg,
            &(200, ddg_rows("https://x.y/d", "D", "d")),
            &(200, sp_rows("https://x.y/s", "S", "s")),
        )
    };
    let mut forward = started(&["q"]);
    for leg in forward.legs() {
        forward.on_leg(leg, outcome(leg));
    }
    let mut backward = started(&["q"]);
    for leg in backward.legs().into_iter().rev() {
        backward.on_leg(leg, outcome(leg));
    }
    assert_eq!(forward.finish(), backward.finish());
}

#[test]
fn panicked_legs_are_upstream_errors() {
    let mut run = started(&["q"]);
    let legs = run.legs();
    assert_eq!(legs[0].provider, SearchProvider::Startpage);
    run.on_panic(legs[0]);
    run.on_leg(legs[1], Ok(vec![]));
    let out = run.finish().expect("one leg succeeded");
    assert_eq!(out.errors.len(), 1);
    assert_eq!(error_detail(&out.errors[0]), "leg panicked");
}

#[test]
fn transport_errors_split_by_cause() {
    let provider = SearchProvider::Startpage;
    let slow = map_transport_error(provider, "q", true, "x".to_string());
    assert_eq!(slow.code(), "timeout");
    let broken = map_transport_error(provider, "q", false, "refused".to_string());
    assert_eq!(broken.code(), "upstream");
    assert_eq!(broken.http_status(), 503);
    assert!(error_detail(&broken).contains("refused"));
}
