//! Evidence, session rows and times.

use web_agent_research::json::Json;
use web_agent_research::shared::session::{
    format_timestamp, Evidence, SessionHeader, SessionUsage, TurnRow,
};
use web_agent_research::SESSION_FORMAT_VERSION;

#[test]
fn known_timestamps_format_as_rfc3339_utc() {
    assert_eq!(format_timestamp(0), "1970-01-01T00:00:00Z");
    assert_eq!(format_timestamp(1_788_825_600), "2026-09-08T00:00:00Z");
}

#[test]
fn calendar_edges_are_exact() {
    let cases = [
        (86_399, "1970-01-01T23:59:59Z"),
        (86_400, "1970-01-02T00:00:00Z"),
        (68_169_600, "1972-02-29T00:00:00Z"),
        (68_256_000, "1972-03-01T00:00:00Z"),
        (946_684_799, "1999-12-31T23:59:59Z"),
        (951_782_400, "2000-02-29T00:00:00Z"),
        (951_868_800, "2000-03-01T00:00:00Z"),
        (978_307_199, "2000-12-31T23:59:59Z"),
        (4_107_542_399, "2100-02-28T23:59:59Z"),
        (4_107_542_400, "2100-03-01T00:00:00Z"),
        (253_402_300_799, "9999-12-31T23:59:59Z"),
        (253_402_300_800, "10000-01-01T00:00:00Z"),
    ];
    for (secs, want) in cases {
        assert_eq!(format_timestamp(secs), want, "secs={secs}");
    }
}

#[test]
fn the_last_second_has_a_date() {
    assert_eq!(format_timestamp(u64::MAX), "584554051223-11-09T07:00:15Z");
}

#[test]
fn later_times_sort_after_earlier_ones() {
    let mut before = format_timestamp(0);
    for day in 1..20_000u64 {
        let now = format_timestamp(day * 86_400);
        assert_eq!(now.len(), 20);
        assert!(before < now, "{before} must sort before {now}");
        before = now;
    }
}

#[test]
fn evidence_new_stamps_rfc3339_collection_time() {
    let ev = Evidence::new(
        "https://example.com/page".to_string(),
        "# Title".to_string(),
    );
    assert_eq!(ev.source_url, "https://example.com/page");
    assert_eq!(ev.markdown, "# Title");
    assert_eq!(
        ev.collected_at.len(),
        20,
        "collected_at = {}",
        ev.collected_at
    );
    assert!(ev.collected_at.ends_with('Z'));
    assert_eq!(&ev.collected_at[10..11], "T");
    assert!(
        ev.collected_at.as_str() > "2025-01-01T00:00:00Z",
        "the clock is read, got {}",
        ev.collected_at
    );
}

#[test]
fn evidence_round_trips_through_json() {
    let ev = Evidence::new("https://example.com/a".to_string(), "body".to_string());
    let back = Evidence::from_json(&ev.to_json()).expect("evidence is read back");
    assert_eq!(ev, back);
}

#[test]
fn incomplete_evidence_is_not_read() {
    assert_eq!(Evidence::from_json(&Json::object()), None);
    let number = Json::object()
        .with("source_url", Json::Number(1))
        .with("collected_at", Json::text("t"))
        .with("markdown", Json::text("m"));
    assert_eq!(Evidence::from_json(&number), None);
    assert_eq!(Evidence::from_json(&Json::Null), None);
}

#[test]
fn headers_carry_the_format_version() {
    let header = SessionHeader::new("s-1".to_string(), "goal".to_string(), "small".to_string());
    assert_eq!(header.format_version, SESSION_FORMAT_VERSION);
    let json = header.to_json();
    assert_eq!(json.get("format_version").and_then(Json::as_u64), Some(1));
    assert_eq!(json.get("session_id").and_then(Json::as_str), Some("s-1"));
    assert_eq!(json.get("goal").and_then(Json::as_str), Some("goal"));
    assert_eq!(json.get("size").and_then(Json::as_str), Some("small"));
}

#[test]
fn rows_omit_a_missing_synthesis() {
    let evidence = || vec![Evidence::at("https://x".to_string(), "m".to_string(), 0)];
    let plain = TurnRow::new(
        "s".to_string(),
        2,
        evidence(),
        None,
        SessionUsage::default(),
    )
    .into_json();
    assert_eq!(plain.get("turn").and_then(Json::as_u64), Some(2));
    assert!(plain.get("synthesis").is_none());
    let sources = plain
        .get("evidence")
        .and_then(Json::as_array)
        .expect("evidence");
    assert_eq!(sources.len(), 1);
    assert_eq!(
        sources[0].get("collected_at").and_then(Json::as_str),
        Some("1970-01-01T00:00:00Z")
    );
    let last = TurnRow::new(
        "s".to_string(),
        3,
        vec![],
        Some(Json::text("done")),
        SessionUsage {
            prompt_tokens: 1,
            completion_tokens: 2,
            total_tokens: 3,
            reasoning_tokens: 4,
        },
    )
    .into_json();
    assert_eq!(last.get("synthesis").and_then(Json::as_str), Some("done"));
    let usage = last.get("usage").expect("usage");
    assert_eq!(usage.get("total_tokens").and_then(Json::as_u64), Some(3));
}
