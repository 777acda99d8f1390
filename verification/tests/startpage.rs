//! The Startpage leg.

use web_agent_research::shared::types::search::{
    Recency, SearchProvider, SearchProviderError, SearchResult,
};
use web_agent_research::shared::web_engine_search::startpage::{
    fetch_startpage_form_inputs, map_startpage_response, own_host, parse_search_form_inputs,
    parse_startpage_html, sanitize_startpage_url, startpage_request, HomePage, SearchRequest,
};

#[test]
fn startpage_sp_parse_primary_selectors() {
    let html = r#"
<div class="result">
  <a class="result-link" href="https://example.com/sp-first"><h2 class="wgl-title">SP <b>First</b></h2></a>
  <p class="description">sp first snippet here</p>
</div>
<div class="result">
  <a class="result-link" href="https://example.com/sp-second"><h3>Second Header</h3></a>
  <p class="description">second text</p>
</div>
<div class="a-bg-result">
  <a class="result-link" href="https://example.com/honeypot"><h2 class="wgl-title">Honeypot</h2></a>
  <p class="description">must be ignored</p>
</div>
<div class="a-bg-result"><div class="result">
  <a class="result-link" href="https://example.com/nested-honeypot"><h2 class="wgl-title">Nested</h2></a>
  <p class="description">nested walk must skip this row</p>
</div></div>
<div class="result">
  <a class="result-link" href="https://example.com/no-snippet"><h2 class="wgl-title">No Snippet</h2></a>
</div>
"#;
    let rows = parse_startpage_html(html, "sp query");
    assert_eq!(rows.len(), 3, "honeypot skipped, got {rows:?}");
    assert_eq!(rows[0].title, "SP First");
    assert_eq!(rows[0].url, "https://example.com/sp-first");
    assert_eq!(rows[0].snippet, "sp first snippet here");
    assert_eq!(rows[0].provider, SearchProvider::Startpage);
    assert_eq!(rows[0].query, "sp query");
    assert_eq!(rows[1].title, "Second Header");
    assert_eq!(rows[2].snippet, "");
}

#[test]
fn startpage_sp_clamp_single_page() {
    let mut html = String::new();
    for i in 0..25 {
        html.push_str(&format!(
            r#"<div class="result"><a class="result-link" href="https://example.com/s{i}"><h2 class="wgl-title">T{i}</h2></a><p class="description">d{i}</p></div>"#
        ));
    }
    let rows = parse_startpage_html(&html, "q");
    assert_eq!(rows.len(), 20);
    for (i, row) in rows.iter().enumerate() {
        assert_eq!(row.rank, i);
    }
}

#[test]
fn startpage_sp_sanitize_rejects_internal() {
    assert_eq!(
        sanitize_startpage_url("https://example.com/ok"),
        Some("https://example.com/ok".to_string())
    );
    assert_eq!(
        sanitize_startpage_url("https://www.startpage.com/sp/search?q=x"),
        None
    );
    assert_eq!(sanitize_startpage_url("https://sub.startpage.com/y"), None);
    assert_eq!(sanitize_startpage_url("/relative/path"), None);
    assert_eq!(sanitize_startpage_url("javascript:void(0)"), None);
    assert_eq!(sanitize_startpage_url("ftp://example.com/x"), None);
}

#[test]
fn startpage_sp_captcha_marker_maps_429() {
    let err = map_startpage_response(
        200,
        "xx component---src-pages-captcha yy",
        "https://www.startpage.com/sp/search",
        "q",
    )
    .unwrap_err();
    assert_eq!(err.http_status(), 429);
    assert_eq!(err.code(), "challenge");
}

#[test]
fn startpage_bare_captcha_word_does_not_trigger() {
    let rows = map_startpage_response(
        200,
        "how do captchas work? explained",
        "https://www.startpage.com/sp/search",
        "q",
    )
    .expect("bare captcha word parses, not a challenge");
    assert!(rows.is_empty());
}

#[test]
fn startpage_sp_token_extraction() {
    let html = r#"<form action="/sp/search" method="post">
<input type="hidden" name="sc" value="token123"/>
<input type="hidden" name="lang" value="english"/>
</form>"#;
    let inputs = parse_search_form_inputs(html).expect("sc present");
    assert!(inputs.iter().any(|(k, v)| k == "sc" && v == "token123"));
    let missing = r#"<form action="/sp/search" method="post">
<input type="hidden" name="lang" value="english"/>
</form>"#;
    assert_eq!(parse_search_form_inputs(missing), None);
    assert_eq!(parse_search_form_inputs("<div>no form</div>"), None);
}

const HOME_FORM: &str = "<form action=\"/sp/search\" method=\"post\"><input type=\"hidden\" name=\"sc\" value=\"tok\"/></form>";

const WALL: &str = "xx component---src-pages-captcha yy";

fn home(body: &str) -> Option<HomePage> {
    Some(HomePage {
        status: 200,
        final_url: "https://www.startpage.com/".to_string(),
        body: body.to_string(),
    })
}

fn search(home: &Option<HomePage>, body: &str) -> (bool, Result<Vec<SearchResult>, SearchProviderError>) {
    let inputs = fetch_startpage_form_inputs(home);
    let posted = matches!(startpage_request(inputs, "q", None), SearchRequest::Post(_));
    let answer = map_startpage_response(200, body, "https://www.startpage.com/sp/search", "q");
    (posted, answer)
}

#[test]
fn startpage_startpage_challenge_costs_one_post() {
    let (posted, answer) = search(&home(HOME_FORM), WALL);
    assert!(posted, "the form with its token is posted");
    let err = answer.unwrap_err();
    assert_eq!(err.http_status(), 429);
}

#[test]
fn startpage_startpage_homepage_challenge_maps_429() {
    let (posted, answer) = search(&home(WALL), WALL);
    assert!(!posted, "homepage challenge degrades to the GET fallback");
    let err = answer.unwrap_err();
    assert_eq!(err.http_status(), 429);
    assert_eq!(err.code(), "challenge");
}

#[test]
fn missing_homepage_falls_back_to_get() {
    match startpage_request(fetch_startpage_form_inputs(&None), "q x", Some(Recency::Day)) {
        SearchRequest::Get(fields) => {
            assert!(fields.contains(&("query".to_string(), "q x".to_string())));
            assert!(fields.iter().any(|(_, value)| value == "d"));
        }
        other => panic!("expected a GET, got {other:?}"),
    }
}

#[test]
fn posted_forms_keep_the_token() {
    let inputs = fetch_startpage_form_inputs(&home(HOME_FORM));
    match startpage_request(inputs, "q", None) {
        SearchRequest::Post(fields) => {
            assert!(fields.contains(&("sc".to_string(), "tok".to_string())));
            assert!(fields.contains(&("query".to_string(), "q".to_string())));
        }
        other => panic!("expected a POST, got {other:?}"),
    }
}

#[test]
fn own_hosts_are_recognised() {
    assert!(own_host("startpage.com"));
    assert!(own_host("www.startpage.com"));
    assert!(!own_host("notstartpage.com"));
}
