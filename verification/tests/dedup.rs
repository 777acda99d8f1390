//! Dedup and consensus merge.

use web_agent_research::shared::types::search::{SearchProvider, SearchResult};
use web_agent_research::shared::web_engine_search::dedup::{
    dedup_key, identity_of, merge_sources, merge_sources_in_order,
};

fn hit(
    provider: SearchProvider,
    query: &str,
    rank: usize,
    url: &str,
    title: &str,
    snippet: &str,
) -> SearchResult {
    SearchResult {
        title: title.to_string(),
        url: url.to_string(),
        snippet: snippet.to_string(),
        provider,
        query: query.to_string(),
        rank,
        published_date: None,
    }
}

#[test]
fn dedup_dedup_key_vectors() {
    let cases = [
        ("https://example.com/a", "example.com/a"),
        ("https://WWW.EXAMPLE.COM/a", "example.com/a"),
        ("http://www.example.com/a#frag", "example.com/a"),
        ("https://example.com/a/", "example.com/a"),
    ];
    for (raw, want) in cases {
        assert_eq!(dedup_key(raw), want, "raw={raw}");
    }
    assert_ne!(
        dedup_key("https://example.com/a?utm_source=x"),
        dedup_key("https://example.com/a"),
    );
}

#[test]
fn dedup_merge_consensus_order() {
    let rows = vec![
        hit(
            SearchProvider::DuckDuckGo,
            "b",
            0,
            "https://solo.example/x",
            "Solo",
            "s",
        ),
        hit(
            SearchProvider::Startpage,
            "a",
            1,
            "https://example.com/shared",
            "SP title",
            "short",
        ),
        hit(
            SearchProvider::DuckDuckGo,
            "b",
            0,
            "https://example.com/shared?utm_source=x",
            "DDG title",
            "a much longer snippet",
        ),
        hit(
            SearchProvider::Startpage,
            "a",
            0,
            "https://example.com/shared?utm_source=x",
            "SP better",
            "mid",
        ),
    ];
    let merged = merge_sources(rows);
    assert_eq!(merged.len(), 3);
    let top = &merged[0];
    assert_eq!(top.providers.len(), 2);
    assert_eq!(top.best_rank, 0);
    assert_eq!(top.title, "SP better");
    assert_eq!(top.snippet, "a much longer snippet");
    assert_eq!(top.canonical_url, "example.com/shared?utm_source=x");
    assert_eq!(top.display_url, "https://example.com/shared?utm_source=x");
    assert_eq!(top.hit_count, 2);
    assert_eq!(top.queries, vec!["a".to_string(), "b".to_string()],);
    assert_eq!(merged[1].best_rank, 0);
    assert_eq!(merged[1].canonical_url, "solo.example/x");
    assert_eq!(merged[2].canonical_url, "example.com/shared");
}

#[test]
fn dedup_merge_input_order_beats_alphabetical_on_ties() {
    let rows = vec![
        hit(
            SearchProvider::Startpage,
            "zebra",
            0,
            "https://example.com/shared",
            "Zebra Title",
            "s",
        ),
        hit(
            SearchProvider::Startpage,
            "apple",
            0,
            "https://example.com/shared",
            "Apple Title",
            "s",
        ),
    ];
    let order = vec!["zebra".to_string(), "apple".to_string()];
    let merged = merge_sources_in_order(rows, &order);
    assert_eq!(merged.len(), 1);
    assert_eq!(merged[0].title, "Zebra Title");
    assert_eq!(
        merged[0].queries,
        vec!["apple".to_string(), "zebra".to_string()]
    );
}

#[test]
fn arrival_order_does_not_matter() {
    let rows = || {
        vec![
            hit(SearchProvider::DuckDuckGo, "b", 1, "https://x.y/1", "One", "a"),
            hit(SearchProvider::Startpage, "a", 0, "https://x.y/2", "Two", "bb"),
            hit(SearchProvider::Startpage, "b", 0, "https://x.y/1", "Uno", "ccc"),
        ]
    };
    let order = vec!["a".to_string(), "b".to_string()];
    let forward = merge_sources_in_order(rows(), &order);
    let mut reversed = rows();
    reversed.reverse();
    assert_eq!(merge_sources_in_order(reversed, &order), forward);
    assert_eq!(forward.iter().map(|r| r.hit_count).sum::<usize>(), 3);
    assert_eq!(forward[0].providers.len(), 2);
}

#[test]
fn identities_keep_the_query() {
    assert_eq!(
        identity_of("example.com", "/a/", &Some("x=1".to_string())),
        "example.com/a?x=1"
    );
    assert_eq!(identity_of("example.com", "/", &None), "example.com");
    assert_eq!(dedup_key("not a url"), "not a url");
}

#[test]
fn groups_take_the_longest_snippet_and_the_first_date() {
    let mut first = hit(SearchProvider::Startpage, "q", 0, "https://x.y/1", "A", "short");
    first.published_date = None;
    let mut second = hit(SearchProvider::Startpage, "q", 1, "https://www.x.y/1/", "B", "much longer");
    second.published_date = Some("Monday".to_string());
    let mut third = hit(SearchProvider::DuckDuckGo, "q", 2, "http://x.y/1", "C", "long");
    third.published_date = Some("Tuesday".to_string());
    let merged = merge_sources(vec![third, first, second]);
    assert_eq!(merged.len(), 1);
    assert_eq!(merged[0].title, "A");
    assert_eq!(merged[0].snippet, "much longer");
    assert_eq!(merged[0].published_date.as_deref(), Some("Monday"));
    assert_eq!(merged[0].hit_count, 3);
}
