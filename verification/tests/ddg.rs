//! The DuckDuckGo leg.

use web_agent_research::shared::types::search::{Recency, SearchProvider, MAX_NUM_RESULTS};
use web_agent_research::shared::web_engine_search::ddg::{
    create_ddg_form, encoded_target, extract_published_date, format_ddg_query, is_ddg_anomaly,
    map_ddg_response, parse_continuation_form, parse_ddg_html, unwrap_ddg_url, web_url, DdgLeg,
    DdgStep,
};
use web_agent_research::shared::web_engine_search::decode::percent_encode;
use web_agent_research::shared::web_engine_search::startpage::is_startpage_challenge;

#[test]
fn ddg_challenge_detectors() {
    assert!(is_ddg_anomaly(r#"<div id="anomaly-modal"></div>"#));
    assert!(is_ddg_anomaly(r#"<script src="/anomaly.js"></script>"#));
    assert!(!is_ddg_anomaly("<div class=\"result\">ok</div>"));
    assert!(is_startpage_challenge(
        "",
        "https://www.startpage.com/en/errors/captcha"
    ));
    assert!(is_startpage_challenge(
        "",
        "https://www.startpage.com/sp/captcha"
    ));
    assert!(is_startpage_challenge(
        "",
        "https://www.startpage.com/sp/captcha-block?bc=PY&query=obscura+browser"
    ));
    assert!(is_startpage_challenge(
        "xx component---src-pages-captcha yy",
        "https://x/"
    ));
    assert!(!is_startpage_challenge(
        "how do captchas work? explained",
        "https://x/"
    ));
    assert!(!is_startpage_challenge(
        "<div class=\"result\">ok</div>",
        "https://x/"
    ));
}

#[test]
fn ddg_ddg_parse_blocks_titles_snippets() {
    let html = r#"
<div class="result results_links results_links_deep web-result ">
  <h2 class="result__title"><a rel="nofollow" class="result__a" href="//duckduckgo.com/l/?uddg=https%3A%2F%2Fexample.com%2Ffirst&amp;rut=x">First <b>Result</b></a></h2>
  <a class="result__snippet" href="https://example.com/first">first snippet &amp; more</a>
</div>
<div class="result results_links results_links_deep web-result ">
  <h2 class="result__title"><a rel="nofollow" class="result__a" href="https://example.com/second">Second Title</a></h2>
  <div class="result__snippet">second <b>snippet</b> here</div>
</div>
<div class="result results_links results_links_deep web-result ">
  <h2 class="result__title"><a rel="nofollow" class="result__a" href="https://example.com/third">Third</a></h2>
  <span class="result__snippet">third &#x27;quoted&#x27; text</span>
</div>
<div class="result results_links results_links_deep web-result ">
  <h2 class="result__title"><a rel="nofollow" href="https://example.com/reversed" class="result__a">Reversed Attrs</a></h2>
  <div class="result__snippet">reversed snippet</div>
</div>
"#;
    let rows = parse_ddg_html(html, "probe query");
    assert_eq!(rows.len(), 4);
    assert_eq!(rows[0].title, "First Result");
    assert_eq!(rows[0].url, "https://example.com/first");
    assert_eq!(rows[0].snippet, "first snippet & more");
    assert_eq!(rows[0].rank, 0);
    assert_eq!(rows[0].query, "probe query");
    assert_eq!(rows[0].provider, SearchProvider::DuckDuckGo);
    assert_eq!(rows[1].url, "https://example.com/second");
    assert_eq!(rows[1].snippet, "second snippet here");
    assert_eq!(rows[2].snippet, "third 'quoted' text");
    assert_eq!(rows[3].title, "Reversed Attrs");
    assert_eq!(rows[3].url, "https://example.com/reversed");
}

#[test]
fn ddg_ddg_decode_bare_ampersand_and_unicode() {
    let html = "<div class=\"result\">\n<a class=\"result__a\" href=\"https://example.com/bare\">Bare</a>\n<div class=\"result__snippet\">AT&T deals in S\u{e3}o Paulo caf\u{e9}</div>\n</div>";
    let rows = parse_ddg_html(html, "q");
    assert_eq!(rows.len(), 1);
    assert_eq!(rows[0].snippet, "AT&T deals in S\u{e3}o Paulo caf\u{e9}");
}

#[test]
fn ddg_ddg_unwrap_percent_encoded_unicode() {
    assert_eq!(
        unwrap_ddg_url("//duckduckgo.com/l/?uddg=https%3A%2F%2Fexample.com%2Fcaf%C3%A9&rut=x"),
        Some("https://example.com/caf\u{e9}".to_string())
    );
}

#[test]
fn ddg_ddg_redirect_unwrap() {
    assert_eq!(
        unwrap_ddg_url("//duckduckgo.com/l/?uddg=https%3A%2F%2Fexample.com%2Ffirst&rut=x"),
        Some("https://example.com/first".to_string())
    );
    assert_eq!(
        unwrap_ddg_url("//example.com/proto-relative"),
        Some("https://example.com/proto-relative".to_string())
    );
    assert_eq!(
        unwrap_ddg_url("https://example.com/absolute"),
        Some("https://example.com/absolute".to_string())
    );
    assert_eq!(unwrap_ddg_url("javascript:void(0)"), None);
    assert_eq!(unwrap_ddg_url("ftp://example.com/x"), None);
}

#[test]
fn ddg_ddg_continuation_requires_s_and_vqd() {
    let with_both = r#"<form action="/html/" method="post">
<input type="hidden" name="s" value="42"/>
<input type="hidden" name="vqd" value="abc123"/>
<input type="hidden" name="q" value="probe"/>
</form>"#;
    let inputs = parse_continuation_form(with_both).expect("s+vqd present");
    assert!(inputs.iter().any(|(k, v)| k == "s" && v == "42"));
    assert!(inputs.iter().any(|(k, v)| k == "vqd" && v == "abc123"));
    let missing_vqd = r#"<form action="/html/" method="post">
<input type="hidden" name="s" value="42"/>
<input type="hidden" name="q" value="probe"/>
</form>"#;
    assert_eq!(parse_continuation_form(missing_vqd), None);
    let missing_s = r#"<form action="/html/" method="post">
<input type="hidden" name="vqd" value="abc123"/>
</form>"#;
    assert_eq!(parse_continuation_form(missing_s), None);
}

#[test]
fn continuation_inputs_come_back_verbatim() {
    let pair = |name: &str, value: &str| (name.to_owned(), value.to_owned());
    let html = r#"<form action="/html/"><input name="s" value="42"/><input name="vqd" value="v1"/><input name="q" value="a  b"/></form>"#;
    assert_eq!(
        parse_continuation_form(html),
        Some(vec![pair("s", "42"), pair("vqd", "v1"), pair("q", "a  b")])
    );
    let blanks = r#"<form><input name="s" value=" "/><input name="vqd" value=" v&amp;1 "/></form>"#;
    assert_eq!(
        parse_continuation_form(blanks),
        Some(vec![pair("s", " "), pair("vqd", " v&1 ")])
    );
    let empty = r#"<form><input name="s" value=""/><input name="vqd" value="v1"/></form>"#;
    assert_eq!(parse_continuation_form(empty), None);
}

#[test]
fn continuation_posts_its_inputs_verbatim() {
    let page = r#"<html><body><div class="result"><h2 class="result__title"><a class="result__a" href="https://example.com/p">T</a></h2></div><form action="/html/" method="post"><input name="s" value="12"/><input name="vqd" value="tok"/><input name="q" value=" a  b"/></form></body></html>"#;
    match DdgLeg::start("a b", None).on_response(200, page) {
        DdgStep::Post(next) => assert_eq!(next.body(), "s=12&vqd=tok&q=+a++b"),
        DdgStep::Done(outcome) => panic!("the page has a continuation, got {outcome:?}"),
    }
}

#[test]
fn ddg_ddg_published_date_extracted() {
    let html = r#"<div class="result">
<a class="result__a" href="https://example.com/d">Dated</a>
<span class="result__age">3 days ago</span>
</div>"#;
    let rows = parse_ddg_html(html, "q");
    assert_eq!(rows.len(), 1);
    assert!(rows[0].published_date.is_some());
}

#[test]
fn ddg_published_date_non_ascii_window_is_char_boundary_safe() {
    let block = format!("result__age{}é tail text", "a".repeat(308));
    let date = extract_published_date(&block);
    assert!(date.is_some(), "date text still extracted past clamp");
}

#[test]
fn ddg_anomaly_body_maps_429_on_status_200() {
    let err = map_ddg_response(200, "<div id=\"anomaly-modal\"></div>", "q").unwrap_err();
    assert_eq!(err.http_status(), 429);
    assert_eq!(err.code(), "challenge");
    assert_eq!(err.provider(), Some(SearchProvider::DuckDuckGo));
}

#[test]
fn ddg_ddg_query_date_ops_stripped() {
    assert_eq!(
        format_ddg_query("obscura before:2024-01-01 browser"),
        "obscura browser"
    );
    assert_eq!(format_ddg_query("after:2023-01-01 x"), "x");
    assert_eq!(format_ddg_query("plain query"), "plain query");
}

fn ddg_page(rows: std::ops::Range<usize>, continuation: bool) -> String {
    let mut html = String::from("<html><body>");
    for i in rows {
        html.push_str(&format!(
            r#"<div class="result"><h2 class="result__title"><a class="result__a" href="https://example.com/p{i}">T{i}</a></h2><div class="result__snippet">s{i}</div></div>"#
        ));
    }
    if continuation {
        html.push_str(
            r#"<form action="/html/" method="post"><input type="hidden" name="s" value="12"/><input type="hidden" name="vqd" value="tok"/><input type="hidden" name="q" value="q"/></form>"#,
        );
    }
    html.push_str("</body></html>");
    html
}

#[test]
fn ddg_ddg_clamp_20_with_pagination() {
    let mut leg = DdgLeg::start("q", None);
    let mut posts = 0;
    let rows = loop {
        posts += 1;
        let page = if leg.body().contains("s=12") {
            ddg_page(0..12, false)
        } else {
            ddg_page(0..12, true)
        };
        match leg.on_response(200, &page) {
            DdgStep::Post(next) => leg = next,
            DdgStep::Done(rows) => break rows.expect("paginated stub merges"),
        }
    };
    assert!(rows.len() <= MAX_NUM_RESULTS);
    assert_eq!(rows.len(), 12);
    for (i, row) in rows.iter().enumerate() {
        assert_eq!(row.rank, i);
    }
    assert_eq!(posts, 2, "both pages fetched");
}

#[test]
fn pages_add_up_to_the_clamp() {
    let leg = DdgLeg::start("q", None);
    let next = match leg.on_response(200, &ddg_page(0..12, true)) {
        DdgStep::Post(next) => next,
        DdgStep::Done(done) => panic!("the continuation must be posted, got {done:?}"),
    };
    assert!(next.body().contains("vqd=tok"));
    match next.on_response(200, &ddg_page(8..30, true)) {
        DdgStep::Done(Ok(rows)) => {
            assert_eq!(rows.len(), MAX_NUM_RESULTS);
            for (i, row) in rows.iter().enumerate() {
                assert_eq!(row.rank, i);
                assert_eq!(row.url, format!("https://example.com/p{i}"));
            }
        }
        other => panic!("a full leg is done, got {other:?}"),
    }
}

#[test]
fn ddg_no_retry_on_challenge() {
    let leg = DdgLeg::start("q", None);
    match leg.on_response(200, "<div id=\"anomaly-modal\"></div>") {
        DdgStep::Done(Err(err)) => assert_eq!(err.http_status(), 429),
        other => panic!("a challenge ends the leg, got {other:?}"),
    }
}

#[test]
fn ddg_stub_500_maps_503() {
    let leg = DdgLeg::start("q", None);
    match leg.on_response(500, "boom") {
        DdgStep::Done(Err(err)) => assert_eq!(err.http_status(), 503),
        other => panic!("a server error ends the leg, got {other:?}"),
    }
}

#[test]
fn forms_carry_query_region_and_window() {
    let plain = create_ddg_form("a b before:2024-01-01", None);
    assert!(plain.contains(&("q".to_string(), "a b".to_string())));
    assert!(plain.iter().all(|(name, _)| name != "df"));
    let dated = create_ddg_form("q", Some(Recency::Month));
    assert!(dated.contains(&("df".to_string(), "m".to_string())));
    assert!(dated.iter().any(|(name, value)| name == "kl" && value == "us-en"));
    let leg = DdgLeg::start("a b&c", None);
    assert!(leg.body().contains("q=a+b%26c"), "got {}", leg.body());
}

#[test]
fn wrapped_targets_are_cut_out() {
    assert_eq!(
        encoded_target("//duckduckgo.com/l/?uddg=https%3A%2F%2Fx&rut=y").as_deref(),
        Some("https%3A%2F%2Fx")
    );
    assert_eq!(encoded_target("https://example.com/"), None);
    assert!(web_url("http://x"));
    assert!(!web_url("ftp://x"));
}

#[test]
fn rows_without_title_or_target_are_skipped() {
    let html = r#"<div class="result"><a class="result__a" href="javascript:void(0)">Bad</a></div>
<div class="result"><a class="result__a" href="https://example.com/ok">Good</a></div>
<div class="result"><span>no link</span></div>"#;
    let rows = parse_ddg_html(html, "q");
    assert_eq!(rows.len(), 1);
    assert_eq!(rows[0].url, "https://example.com/ok");
    assert_eq!(rows[0].snippet, "");
}

#[test]
fn a_form_that_does_not_advance_ends_the_leg() {
    let leg = DdgLeg::start("q", None);
    let second = match leg.on_response(200, &ddg_page(0..3, true)) {
        DdgStep::Post(next) => next,
        other => panic!("the continuation must be posted, got {other:?}"),
    };
    match second.on_response(200, &ddg_page(3..6, true)) {
        DdgStep::Done(Ok(rows)) => assert_eq!(rows.len(), 6),
        other => panic!("the same offset again ends the leg, got {other:?}"),
    }
}

#[test]
fn wrappers_give_back_their_target() {
    for target in ["https://example.com/?a=1&b=2#c", "http://x/caf\u{e9} +%"] {
        let wrapped = format!(
            "//duckduckgo.com/l/?uddg={}&rut=abc",
            percent_encode(target)
        );
        assert_eq!(unwrap_ddg_url(&wrapped).as_deref(), Some(target));
    }
}
