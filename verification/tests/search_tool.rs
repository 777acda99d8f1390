//! The search tool and the parts of the web search behind it.

use web_agent_research::json::Json;
use web_agent_research::shared::tools::search::{
    all_failed_message, dedup_key, extract_published_date, format_ddg_query, is_ddg_anomaly,
    is_startpage_challenge, map_ddg_response, map_startpage_response, map_timeout, merge_sources,
    parse_continuation_form, parse_ddg_html, parse_search_form_inputs, parse_startpage_html,
    sanitize_startpage_url, search_tool_schema, unwrap_ddg_url,
};
use web_agent_research::shared::types::search::{
    Recency, SearchInput, SearchProvider, SearchProviderError, SearchResult,
};
use web_agent_research::shared::web_engine_search::dedup::merge_sources_in_order;

fn hit(
    provider: SearchProvider,
    query: &str,
    rank: usize,
    url: &str,
    title: &str,
    snippet: &str,
) -> SearchResult {
    SearchResult {
        title: title.to_string(),
        url: url.to_string(),
        snippet: snippet.to_string(),
        provider,
        query: query.to_string(),
        rank,
        published_date: None,
    }
}

#[test]
fn search_dedup_key_vectors() {
    let cases = [
        ("https://example.com/a", "example.com/a"),
        ("https://WWW.EXAMPLE.COM/a", "example.com/a"),
        ("http://www.example.com/a#frag", "example.com/a"),
        ("https://example.com/a/", "example.com/a"),
    ];
    for (raw, want) in cases {
        assert_eq!(dedup_key(raw), want, "raw={raw}");
    }
    assert_ne!(
        dedup_key("https://example.com/a?utm_source=x"),
        dedup_key("https://example.com/a"),
    );
}

#[test]
fn search_merge_consensus_order() {
    let rows = vec![
        hit(
            SearchProvider::DuckDuckGo,
            "b",
            0,
            "https://solo.example/x",
            "Solo",
            "s",
        ),
        hit(
            SearchProvider::Startpage,
            "a",
            1,
            "https://example.com/shared",
            "SP title",
            "short",
        ),
        hit(
            SearchProvider::DuckDuckGo,
            "b",
            0,
            "https://example.com/shared?utm_source=x",
            "DDG title",
            "a much longer snippet",
        ),
        hit(
            SearchProvider::Startpage,
            "a",
            0,
            "https://example.com/shared?utm_source=x",
            "SP better",
            "mid",
        ),
    ];
    let merged = merge_sources(rows);
    assert_eq!(merged.len(), 3);
    let top = &merged[0];
    assert_eq!(top.providers.len(), 2);
    assert_eq!(top.best_rank, 0);
    assert_eq!(top.title, "SP better");
    assert_eq!(top.snippet, "a much longer snippet");
    assert_eq!(top.canonical_url, "example.com/shared?utm_source=x");
    assert_eq!(top.display_url, "https://example.com/shared?utm_source=x");
    assert_eq!(top.hit_count, 2);
    assert_eq!(top.queries, vec!["a".to_string(), "b".to_string()],);
    assert_eq!(merged[1].best_rank, 0);
    assert_eq!(merged[1].canonical_url, "solo.example/x");
    assert_eq!(merged[2].canonical_url, "example.com/shared");
}

#[test]
fn search_challenge_detectors() {
    assert!(is_ddg_anomaly(r#"<div id="anomaly-modal"></div>"#));
    assert!(is_ddg_anomaly(r#"<script src="/anomaly.js"></script>"#));
    assert!(!is_ddg_anomaly("<div class=\"result\">ok</div>"));
    assert!(is_startpage_challenge(
        "",
        "https://www.startpage.com/en/errors/captcha"
    ));
    assert!(is_startpage_challenge(
        "",
        "https://www.startpage.com/sp/captcha"
    ));
    assert!(is_startpage_challenge(
        "",
        "https://www.startpage.com/sp/captcha-block?bc=PY&query=obscura+browser"
    ));
    assert!(is_startpage_challenge(
        "xx component---src-pages-captcha yy",
        "https://x/"
    ));
    assert!(!is_startpage_challenge(
        "how do captchas work? explained",
        "https://x/"
    ));
    assert!(!is_startpage_challenge(
        "<div class=\"result\">ok</div>",
        "https://x/"
    ));
}

#[test]
fn search_merge_input_order_beats_alphabetical_on_ties() {
    let rows = vec![
        hit(
            SearchProvider::Startpage,
            "zebra",
            0,
            "https://example.com/shared",
            "Zebra Title",
            "s",
        ),
        hit(
            SearchProvider::Startpage,
            "apple",
            0,
            "https://example.com/shared",
            "Apple Title",
            "s",
        ),
    ];
    let order = vec!["zebra".to_string(), "apple".to_string()];
    let merged = merge_sources_in_order(rows, &order);
    assert_eq!(merged.len(), 1);
    assert_eq!(merged[0].title, "Zebra Title");
    assert_eq!(
        merged[0].queries,
        vec!["apple".to_string(), "zebra".to_string()]
    );
}

#[test]
fn search_all_failed_message_format() {
    let msg = all_failed_message(&[
        ("duckduckgo".to_string(), "boom".to_string()),
        ("startpage".to_string(), "bust".to_string()),
    ]);
    assert_eq!(msg, "duckduckgo: boom; startpage: bust");
}

fn at<'a>(value: &'a Json, path: &[&str]) -> &'a Json {
    let mut node = value;
    for name in path {
        node = node.get(name).expect("schema node");
    }
    node
}

fn names(value: &Json) -> Vec<&str> {
    value
        .as_array()
        .expect("array")
        .iter()
        .map(|item| item.as_str().expect("string"))
        .collect()
}

fn keys(value: &Json) -> Vec<&str> {
    match value {
        Json::Object(fields) => fields.iter().map(|(name, _)| name.as_str()).collect(),
        other => panic!("expected an object, got {other:?}"),
    }
}

#[test]
fn tool_schema_shape_and_roundtrip() {
    let schema = search_tool_schema();
    assert_eq!(schema.get("name"), Some(&Json::text("search")));
    for path in [&[][..], &["parameters"][..]] {
        let node = at(&schema, path);
        assert_eq!(
            node.get("additionalProperties"),
            Some(&Json::Bool(false)),
            "missing flag at `{path:?}`"
        );
    }
    assert_eq!(
        names(at(&schema, &["parameters", "required"])),
        vec!["queries"]
    );
    let queries = at(&schema, &["parameters", "properties", "queries"]);
    assert_eq!(queries.get("minItems"), Some(&Json::Number(1)));
    assert_eq!(queries.get("maxItems"), Some(&Json::Number(8)));

    assert_eq!(at(queries, &["items", "maxLength"]), &Json::Number(500));
    let top_k = at(&schema, &["parameters", "properties", "top_k"]);
    assert_eq!(top_k.get("minimum"), Some(&Json::Number(1)));
    assert_eq!(top_k.get("maximum"), Some(&Json::Number(30)));
    assert_eq!(top_k.get("default"), Some(&Json::Number(15)));
    let recency = at(&schema, &["parameters", "properties", "recency"]);
    assert_eq!(
        names(at(recency, &["enum"])),
        vec!["day", "week", "month", "year"]
    );
    assert!(SearchInput::validate(vec!["obscura browser".to_string()], Some(15), None).is_ok());
    assert!(SearchInput::validate(vec!["q".to_string()], Some(15), Some(Recency::Week)).is_ok());
    assert_eq!(
        SearchInput::validate(vec![], None, None),
        Err(SearchProviderError::EmptyQuery)
    );
    assert!(SearchInput::validate(vec![" ".to_string()], None, None).is_err());
    let many: Vec<String> = (0..9).map(|i| format!("q{i}")).collect();
    assert_eq!(
        SearchInput::validate(many, None, None),
        Err(SearchProviderError::TooManyQueries { got: 9, max: 8 })
    );
    let long = "x".repeat(501);
    assert!(SearchInput::validate(vec![long], None, None).is_err());
    assert!(SearchInput::validate(vec!["é".repeat(500)], None, None).is_ok());
    assert!(SearchInput::validate(vec!["é".repeat(501)], None, None).is_err());
    assert_eq!(Recency::from_name("fortnight"), None);
    for name in names(at(recency, &["enum"])) {
        assert!(Recency::from_name(name).is_some(), "{name} must be a window");
    }
    assert_eq!(Recency::Week.param(), "w");
    let known_root = keys(&schema);
    assert!(known_root.contains(&"$schema"));
    assert!(known_root.contains(&"name"));
    assert!(!known_root.contains(&"extra"));
    let known_params = keys(at(&schema, &["parameters"]));
    assert!(known_params.contains(&"properties"));
    assert!(!known_params.contains(&"extra"));
}

#[test]
fn search_ddg_parse_blocks_titles_snippets() {
    let html = r#"
<div class="result results_links results_links_deep web-result ">
  <h2 class="result__title"><a rel="nofollow" class="result__a" href="//duckduckgo.com/l/?uddg=https%3A%2F%2Fexample.com%2Ffirst&amp;rut=x">First <b>Result</b></a></h2>
  <a class="result__snippet" href="https://example.com/first">first snippet &amp; more</a>
</div>
<div class="result results_links results_links_deep web-result ">
  <h2 class="result__title"><a rel="nofollow" class="result__a" href="https://example.com/second">Second Title</a></h2>
  <div class="result__snippet">second <b>snippet</b> here</div>
</div>
<div class="result results_links results_links_deep web-result ">
  <h2 class="result__title"><a rel="nofollow" class="result__a" href="https://example.com/third">Third</a></h2>
  <span class="result__snippet">third &#x27;quoted&#x27; text</span>
</div>
<div class="result results_links results_links_deep web-result ">
  <h2 class="result__title"><a rel="nofollow" href="https://example.com/reversed" class="result__a">Reversed Attrs</a></h2>
  <div class="result__snippet">reversed snippet</div>
</div>
"#;
    let rows = parse_ddg_html(html, "probe query");
    assert_eq!(rows.len(), 4);
    assert_eq!(rows[0].title, "First Result");
    assert_eq!(rows[0].url, "https://example.com/first");
    assert_eq!(rows[0].snippet, "first snippet & more");
    assert_eq!(rows[0].rank, 0);
    assert_eq!(rows[0].query, "probe query");
    assert_eq!(rows[0].provider, SearchProvider::DuckDuckGo);
    assert_eq!(rows[1].url, "https://example.com/second");
    assert_eq!(rows[1].snippet, "second snippet here");
    assert_eq!(rows[2].snippet, "third 'quoted' text");
    assert_eq!(rows[3].title, "Reversed Attrs");
    assert_eq!(rows[3].url, "https://example.com/reversed");
}

#[test]
fn search_ddg_decode_bare_ampersand_and_unicode() {
    let html = "<div class=\"result\">\n<a class=\"result__a\" href=\"https://example.com/bare\">Bare</a>\n<div class=\"result__snippet\">AT&T deals in S\u{e3}o Paulo caf\u{e9}</div>\n</div>";
    let rows = parse_ddg_html(html, "q");
    assert_eq!(rows.len(), 1);
    assert_eq!(rows[0].snippet, "AT&T deals in S\u{e3}o Paulo caf\u{e9}");
}

#[test]
fn search_ddg_unwrap_percent_encoded_unicode() {
    assert_eq!(
        unwrap_ddg_url("//duckduckgo.com/l/?uddg=https%3A%2F%2Fexample.com%2Fcaf%C3%A9&rut=x"),
        Some("https://example.com/caf\u{e9}".to_string())
    );
}

#[test]
fn search_ddg_redirect_unwrap() {
    assert_eq!(
        unwrap_ddg_url("//duckduckgo.com/l/?uddg=https%3A%2F%2Fexample.com%2Ffirst&rut=x"),
        Some("https://example.com/first".to_string())
    );
    assert_eq!(
        unwrap_ddg_url("//example.com/proto-relative"),
        Some("https://example.com/proto-relative".to_string())
    );
    assert_eq!(
        unwrap_ddg_url("https://example.com/absolute"),
        Some("https://example.com/absolute".to_string())
    );
    assert_eq!(unwrap_ddg_url("javascript:void(0)"), None);
    assert_eq!(unwrap_ddg_url("ftp://example.com/x"), None);
}

#[test]
fn search_ddg_continuation_requires_s_and_vqd() {
    let with_both = r#"<form action="/html/" method="post">
<input type="hidden" name="s" value="42"/>
<input type="hidden" name="vqd" value="abc123"/>
<input type="hidden" name="q" value="probe"/>
</form>"#;
    let inputs = parse_continuation_form(with_both).expect("s+vqd present");
    assert!(inputs.iter().any(|(k, v)| k == "s" && v == "42"));
    assert!(inputs.iter().any(|(k, v)| k == "vqd" && v == "abc123"));
    let missing_vqd = r#"<form action="/html/" method="post">
<input type="hidden" name="s" value="42"/>
<input type="hidden" name="q" value="probe"/>
</form>"#;
    assert_eq!(parse_continuation_form(missing_vqd), None);
    let missing_s = r#"<form action="/html/" method="post">
<input type="hidden" name="vqd" value="abc123"/>
</form>"#;
    assert_eq!(parse_continuation_form(missing_s), None);
}

#[test]
fn search_sp_parse_primary_selectors() {
    let html = r#"
<div class="result">
  <a class="result-link" href="https://example.com/sp-first"><h2 class="wgl-title">SP <b>First</b></h2></a>
  <p class="description">sp first snippet here</p>
</div>
<div class="result">
  <a class="result-link" href="https://example.com/sp-second"><h3>Second Header</h3></a>
  <p class="description">second text</p>
</div>
<div class="a-bg-result">
  <a class="result-link" href="https://example.com/honeypot"><h2 class="wgl-title">Honeypot</h2></a>
  <p class="description">must be ignored</p>
</div>
<div class="a-bg-result"><div class="result">
  <a class="result-link" href="https://example.com/nested-honeypot"><h2 class="wgl-title">Nested</h2></a>
  <p class="description">nested walk must skip this row</p>
</div></div>
<div class="result">
  <a class="result-link" href="https://example.com/no-snippet"><h2 class="wgl-title">No Snippet</h2></a>
</div>
"#;
    let rows = parse_startpage_html(html, "sp query");
    assert_eq!(rows.len(), 3, "honeypot skipped, got {rows:?}");
    assert_eq!(rows[0].title, "SP First");
    assert_eq!(rows[0].url, "https://example.com/sp-first");
    assert_eq!(rows[0].snippet, "sp first snippet here");
    assert_eq!(rows[0].provider, SearchProvider::Startpage);
    assert_eq!(rows[0].query, "sp query");
    assert_eq!(rows[1].title, "Second Header");
    assert_eq!(rows[2].snippet, "");
}

#[test]
fn search_sp_clamp_single_page() {
    let mut html = String::new();
    for i in 0..25 {
        html.push_str(&format!(
            r#"<div class="result"><a class="result-link" href="https://example.com/s{i}"><h2 class="wgl-title">T{i}</h2></a><p class="description">d{i}</p></div>"#
        ));
    }
    let rows = parse_startpage_html(&html, "q");
    assert_eq!(rows.len(), 20);
    for (i, row) in rows.iter().enumerate() {
        assert_eq!(row.rank, i);
    }
}

#[test]
fn search_sp_sanitize_rejects_internal() {
    assert_eq!(
        sanitize_startpage_url("https://example.com/ok"),
        Some("https://example.com/ok".to_string())
    );
    assert_eq!(
        sanitize_startpage_url("https://www.startpage.com/sp/search?q=x"),
        None
    );
    assert_eq!(sanitize_startpage_url("https://sub.startpage.com/y"), None);
    assert_eq!(sanitize_startpage_url("/relative/path"), None);
    assert_eq!(sanitize_startpage_url("javascript:void(0)"), None);
    assert_eq!(sanitize_startpage_url("ftp://example.com/x"), None);
}

#[test]
fn search_ddg_published_date_extracted() {
    let html = r#"<div class="result">
<a class="result__a" href="https://example.com/d">Dated</a>
<span class="result__age">3 days ago</span>
</div>"#;
    let rows = parse_ddg_html(html, "q");
    assert_eq!(rows.len(), 1);
    assert!(rows[0].published_date.is_some());
}

#[test]
fn search_published_date_non_ascii_window_is_char_boundary_safe() {
    let block = format!("result__age{}é tail text", "a".repeat(308));
    let date = extract_published_date(&block);
    assert!(date.is_some(), "date text still extracted past clamp");
}

#[test]
fn search_anomaly_body_maps_429_on_status_200() {
    let err = map_ddg_response(200, "<div id=\"anomaly-modal\"></div>", "q").unwrap_err();
    assert_eq!(err.http_status(), 429);
    assert_eq!(err.code(), "challenge");
    assert_eq!(err.provider(), Some(SearchProvider::DuckDuckGo));
}

#[test]
fn search_sp_captcha_marker_maps_429() {
    let err = map_startpage_response(
        200,
        "xx component---src-pages-captcha yy",
        "https://www.startpage.com/sp/search",
        "q",
    )
    .unwrap_err();
    assert_eq!(err.http_status(), 429);
    assert_eq!(err.code(), "challenge");
}

#[test]
fn search_bare_captcha_word_does_not_trigger() {
    let rows = map_startpage_response(
        200,
        "how do captchas work? explained",
        "https://www.startpage.com/sp/search",
        "q",
    )
    .expect("bare captcha word parses, not a challenge");
    assert!(rows.is_empty());
}

#[test]
fn search_timeout_beats_challenge() {
    let err = map_timeout(SearchProvider::DuckDuckGo, "q");
    assert_eq!(err.http_status(), 504);
    assert_eq!(err.code(), "timeout");
}

#[test]
fn search_http_500_maps_503() {
    let err = map_ddg_response(500, "boom", "q").unwrap_err();
    assert_eq!(err.http_status(), 503);
    let err = map_startpage_response(500, "boom", "https://x/", "q").unwrap_err();
    assert_eq!(err.http_status(), 503);
}

#[test]
fn search_validation_status_codes() {
    assert_eq!(SearchProviderError::EmptyQuery.http_status(), 400);
    assert_eq!(SearchProviderError::EmptyQuery.code(), "empty_query");
    assert_eq!(
        SearchProviderError::TooManyQueries { got: 9, max: 8 }.http_status(),
        400
    );
    assert_eq!(
        SearchProviderError::AllFailed {
            failures: "a: b".to_string()
        }
        .http_status(),
        503
    );
    assert_eq!(SearchProviderError::EmptyQuery.provider(), None);
}

#[test]
fn search_ddg_query_date_ops_stripped() {
    assert_eq!(
        format_ddg_query("obscura before:2024-01-01 browser"),
        "obscura browser"
    );
    assert_eq!(format_ddg_query("after:2023-01-01 x"), "x");
    assert_eq!(format_ddg_query("plain query"), "plain query");
}

#[test]
fn search_sp_token_extraction() {
    let html = r#"<form action="/sp/search" method="post">
<input type="hidden" name="sc" value="token123"/>
<input type="hidden" name="lang" value="english"/>
</form>"#;
    let inputs = parse_search_form_inputs(html).expect("sc present");
    assert!(inputs.iter().any(|(k, v)| k == "sc" && v == "token123"));
    let missing = r#"<form action="/sp/search" method="post">
<input type="hidden" name="lang" value="english"/>
</form>"#;
    assert_eq!(parse_search_form_inputs(missing), None);
    assert_eq!(parse_search_form_inputs("<div>no form</div>"), None);
}
