//! Reading the final answer.

use web_agent_research::shared::agent_loop::synthesis::{
    bullet_text, dedupe_links, parse_answer, scan_links, AnswerError,
};
use web_agent_research::shared::types::synthesis::{Citation, SynthesisSize};

const LINKED: &str = "# Overview\n\nThe [Obscura engine](https://example.com/obscura) is fast.\n\n## Search\n\n- Use [search docs](https://example.com/search) first.\n- Then [fetch docs](https://example.com/fetch) next.\n\n## Limits\n\nSee the [Obscura engine](https://example.com/obscura) again.";

#[test]
fn headings_bullets_and_links_split() {
    let synthesis = parse_answer(LINKED, SynthesisSize::Medium).expect("linked answer parses");
    assert_eq!(synthesis.size, SynthesisSize::Medium);
    assert!(!synthesis.summary.is_empty());
    assert!(synthesis.summary.contains("Obscura engine"));
    assert_eq!(synthesis.themes.len(), 2);
    assert_eq!(synthesis.themes[0].title, "Search");
    assert_eq!(synthesis.themes[0].points.len(), 2);
    assert_eq!(synthesis.themes[0].citations.len(), 2);
    assert_eq!(synthesis.themes[1].title, "Limits");
    assert_eq!(synthesis.themes[1].points.len(), 1);
}

#[test]
fn citations_dedupe_by_exact_url_in_doc_order() {
    let synthesis = parse_answer(LINKED, SynthesisSize::Large).expect("linked answer parses");
    let urls: Vec<&str> = synthesis
        .citations
        .iter()
        .map(|citation| citation.url.as_str())
        .collect();
    assert_eq!(
        urls,
        vec![
            "https://example.com/obscura",
            "https://example.com/search",
            "https://example.com/fetch"
        ]
    );
    assert_eq!(
        synthesis.citations[0].title.as_deref(),
        Some("Obscura engine")
    );
}

#[test]
fn heading_free_answer_yields_findings_theme() {
    let synthesis = parse_answer(
        "Plain answer with a [link](https://example.com/a).",
        SynthesisSize::Small,
    )
    .expect("heading-free answer parses");
    assert_eq!(synthesis.themes.len(), 1);
    assert_eq!(synthesis.themes[0].title, "Findings");
    assert_eq!(synthesis.themes[0].points.len(), 1);
    assert_eq!(synthesis.citations.len(), 1);
}

#[test]
fn link_free_answer_still_parses() {
    let synthesis = parse_answer("## Solo\n\nJust prose, no links.", SynthesisSize::Small)
        .expect("link-free answer parses");
    assert!(!synthesis.summary.is_empty());
    assert_eq!(synthesis.themes.len(), 1);
    assert!(synthesis.citations.is_empty());
    assert_eq!(synthesis.themes[0].points.len(), 1);
}

#[test]
fn empty_body_is_the_only_error() {
    for raw in ["", "   ", "\n\t \n"] {
        let err = parse_answer(raw, SynthesisSize::Medium).expect_err("empty body must fail");
        assert_eq!(err.to_string(), "empty answer block");
        assert_eq!(err, AnswerError::EmptyAnswer);
    }
}

#[test]
fn size_echoes_requested() {
    for size in [
        SynthesisSize::Small,
        SynthesisSize::Medium,
        SynthesisSize::Large,
        SynthesisSize::Deep,
    ] {
        let synthesis = parse_answer("An answer.", size).expect("non-empty parses");
        assert_eq!(synthesis.size, size);
    }
}

#[test]
fn deep_headings_demote_to_body_text() {
    let synthesis = parse_answer(
        "## Theme\n\n### Detail\n\nBody text here.",
        SynthesisSize::Medium,
    )
    .expect("demoted headings parse");
    assert_eq!(synthesis.themes.len(), 1);
    assert_eq!(synthesis.themes[0].points.len(), 1);
    assert!(synthesis.themes[0].points[0].contains("Detail"));
}

#[test]
fn non_http_schemes_and_reference_links_skipped() {
    let synthesis = parse_answer(
        "See [mail](mailto:a@b.c), [file](ftp://x/y), [empty](), and [ref][r].\n\n[r]: https://example.com/r\n\nBut keep [ok](https://example.com/ok).",
        SynthesisSize::Small,
    )
    .expect("mixed-link answer parses");
    let urls: Vec<&str> = synthesis
        .citations
        .iter()
        .map(|citation| citation.url.as_str())
        .collect();
    assert_eq!(urls, vec!["https://example.com/ok"]);
}

#[test]
fn empty_link_title_is_none() {
    let synthesis = parse_answer("See [](https://example.com/bare).", SynthesisSize::Small)
        .expect("bare link parses");
    assert_eq!(synthesis.citations.len(), 1);
    assert_eq!(synthesis.citations[0].title, None);
}

#[test]
fn numbered_bullets_become_points() {
    let synthesis = parse_answer("## Steps\n\n1. First\n2. Second", SynthesisSize::Medium)
        .expect("numbered list parses");
    assert_eq!(synthesis.themes[0].points, vec!["First", "Second"]);
}

#[test]
fn bullets_are_dashes_stars_and_numbers() {
    assert_eq!(bullet_text("- one").as_deref(), Some("one"));
    assert_eq!(bullet_text("* two").as_deref(), Some("two"));
    assert_eq!(bullet_text("12. three").as_deref(), Some("three"));
    assert_eq!(bullet_text("four"), None);
    assert_eq!(bullet_text("5.five"), None);
}

#[test]
fn links_are_found_in_order() {
    let links = scan_links("a [x](https://x) b [y](http://y) c [x](https://x)");
    let urls: Vec<&str> = links.iter().map(|c| c.url.as_str()).collect();
    assert_eq!(urls, vec!["https://x", "http://y", "https://x"]);
    let kept = dedupe_links(&links);
    assert_eq!(
        kept,
        vec![
            Citation {
                url: "https://x".to_owned(),
                title: Some("x".to_owned()),
            },
            Citation {
                url: "http://y".to_owned(),
                title: Some("y".to_owned()),
            },
        ]
    );
}

#[test]
fn every_section_has_a_point() {
    let synthesis = parse_answer(
        "Intro text.\n\n## Empty\n\n## Full\n\n- Point.",
        SynthesisSize::Medium,
    )
    .expect("answer parses");
    assert_eq!(synthesis.themes.len(), 2);
    assert_eq!(synthesis.themes[0].points, vec![synthesis.summary.clone()]);
    assert_eq!(synthesis.themes[1].points, vec!["Point."]);
}
