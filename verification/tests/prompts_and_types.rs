//! The executor prompt and the small types.

use web_agent_research::shared::prompts::execute::{
    build_system_prompt, size_guidance, EXECUTE_ROLE_TEXT,
};
use web_agent_research::shared::types::search::{
    Recency, SearchInput, SearchProvider, SearchProviderError,
};
use web_agent_research::shared::types::synthesis::{Citation, SynthesisSize, ThemeSection};

fn roster() -> Vec<(&'static str, &'static str)> {
    vec![
        ("search", "Search the web for pages matching a query."),
        ("fetch", "Fetch a URL and return its content as markdown."),
    ]
}

#[test]
fn golden_text_carries_role_roster_size_and_discipline() {
    let prompt = build_system_prompt(&roster(), SynthesisSize::Medium);
    assert!(
        prompt.contains(EXECUTE_ROLE_TEXT),
        "role text must be present"
    );
    for (name, purpose) in roster() {
        let line = format!("{name} — {purpose}");
        assert!(prompt.contains(&line), "roster line missing: {line}");
    }
    assert!(
        prompt.contains("Requested size: medium"),
        "size line missing"
    );
    assert!(prompt.contains("tool call"), "tool call discipline missing");
    assert!(prompt.contains("## "), "heading discipline missing");
    assert!(
        prompt.contains("[title](url)"),
        "citation discipline missing"
    );
}

#[test]
fn size_line_echoes_requested_size() {
    for size in [
        SynthesisSize::Small,
        SynthesisSize::Medium,
        SynthesisSize::Large,
        SynthesisSize::Deep,
    ] {
        let prompt = build_system_prompt(&roster(), size);
        assert!(
            prompt.contains(&format!("Requested size: {}", size.as_str())),
            "size line must echo {}",
            size.as_str()
        );
        assert!(prompt.contains(size_guidance(size)));
    }
}

#[test]
fn empty_roster_stays_explicit() {
    let prompt = build_system_prompt(&[], SynthesisSize::Small);
    assert!(prompt.contains("(none — answer directly)"));
    assert!(prompt.contains("Requested size: small"));
}

#[test]
fn size_names_match_contract() {
    assert_eq!(SynthesisSize::Small.as_str(), "small");
    assert_eq!(SynthesisSize::Medium.as_str(), "medium");
    assert_eq!(SynthesisSize::Large.as_str(), "large");
    assert_eq!(SynthesisSize::Deep.as_str(), "deep");
}

#[test]
fn default_size_is_medium() {
    assert_eq!(SynthesisSize::default(), SynthesisSize::Medium);
    assert_eq!(SynthesisSize::default().as_str(), "medium");
}

#[test]
fn citation_empty_title_is_none() {
    let cited = Citation {
        url: "https://example.com/a".to_owned(),
        title: None,
    };
    assert_eq!(cited.title, None);
    assert!(!cited.url.is_empty());
}

#[test]
fn default_section_is_empty() {
    let section = ThemeSection::default();
    assert!(section.title.is_empty());
    assert!(section.points.is_empty());
    assert!(section.citations.is_empty());
}

#[test]
fn providers_and_windows_have_their_codes() {
    assert_eq!(SearchProvider::DuckDuckGo.id(), "duckduckgo");
    assert_eq!(SearchProvider::Startpage.id(), "startpage");
    assert_eq!(SearchProvider::DuckDuckGo.priority(), 1);
    assert_eq!(SearchProvider::Startpage.priority(), 0);
    assert!(SearchProvider::Startpage.is_available());
    assert_eq!(Recency::Day.param(), "d");
    assert_eq!(Recency::Week.param(), "w");
    assert_eq!(Recency::Month.param(), "m");
    assert_eq!(Recency::Year.param(), "y");
}

#[test]
fn inputs_are_trimmed_and_clamped() {
    let input = SearchInput::validate(vec!["  q  ".to_owned()], Some(99), Some(Recency::Day))
        .expect("valid input");
    assert_eq!(input.queries, vec!["q"]);
    assert_eq!(input.top_k, 30);
    assert_eq!(input.recency, Some(Recency::Day));
    let low = SearchInput::validate(vec!["q".to_owned()], Some(0), None).expect("valid input");
    assert_eq!(low.top_k, 1);
    let unset = SearchInput::validate(vec!["q".to_owned()], None, None).expect("valid input");
    assert_eq!(unset.top_k, 15);
}

#[test]
fn provider_errors_have_codes_and_statuses() {
    let provider = SearchProvider::Startpage;
    let challenge = SearchProviderError::Challenge {
        provider,
        detail: "x".to_owned(),
    };
    assert_eq!(challenge.http_status(), 429);
    assert_eq!(challenge.provider(), Some(provider));
    let timeout = SearchProviderError::Timeout {
        provider,
        query: "q".to_owned(),
    };
    assert_eq!(timeout.http_status(), 504);
    assert_ne!(timeout.code(), challenge.code());
    let all = SearchProviderError::AllFailed {
        failures: "f".to_owned(),
    };
    assert_eq!(all.http_status(), 503);
    assert_eq!(all.provider(), None);
}
