//! The tools that the agent loop may run.

use std::collections::VecDeque;
use web_agent_research::json::Json;
use web_agent_research::shared::agent_loop::registry::{
    validate_fetch, validate_search, value_kind, FetchArgs, FetchedPage, SearchArgs, SearchHit,
    ToolRegistry, ToolResult,
};
use web_agent_research::shared::gateway::RequestedToolCall;

fn call(name: &str, arguments: &str) -> RequestedToolCall {
    RequestedToolCall {
        id: "call_1".to_owned(),
        name: name.to_owned(),
        arguments: arguments.to_owned(),
    }
}

fn reason_of(result: ToolResult) -> String {
    match result {
        ToolResult::Failed { reason, .. } => reason,
        other => panic!("expected a failure, got {other:?}"),
    }
}

#[test]
fn registry_names_are_deterministic() {
    let registry = ToolRegistry::live();
    assert_eq!(registry.tool_names(), vec!["search", "fetch"]);
}

#[test]
fn live_loop_tool_names_stay_stable() {
    let registry = ToolRegistry::live();
    assert_eq!(registry.tool_names(), vec!["search", "fetch"]);
}

#[test]
fn tool_defs_filter_in_registry_order() {
    let registry = ToolRegistry::live();
    let defs = registry.tool_defs(&["fetch".to_owned(), "search".to_owned()]);
    assert_eq!(defs.len(), 2);
    assert_eq!(defs[0].name, "search");
    assert_eq!(defs[1].name, "fetch");
    for def in &defs {
        assert_eq!(
            def.parameters.get("type").and_then(|v| v.as_str()),
            Some("object"),
            "each ToolDef must carry a real JSON Schema"
        );
    }
    let only_search = registry.tool_defs(&["search".to_owned()]);
    assert_eq!(only_search.len(), 1);
    assert_eq!(only_search[0].name, "search");
    assert!(registry.tool_defs(&["nope".to_owned()]).is_empty());
    assert!(registry.tool_defs(&[]).is_empty());
}

#[test]
fn tool_defs_carry_required_fields() {
    let registry = ToolRegistry::live();
    let defs = registry.tool_defs(&["search".to_owned(), "fetch".to_owned()]);
    let search = defs
        .iter()
        .find(|def| def.name == "search")
        .expect("search def");
    let required = search
        .parameters
        .get("required")
        .and_then(|v| v.as_array())
        .expect("search schema must list required fields");
    assert!(required.contains(&Json::text("query")));
    let fetch = defs
        .iter()
        .find(|def| def.name == "fetch")
        .expect("fetch def");
    let required = fetch
        .parameters
        .get("required")
        .and_then(|v| v.as_array())
        .expect("fetch schema must list required fields");
    assert!(required.contains(&Json::text("url")));
}

#[test]
fn stub_pops_in_order_then_exhausts() {
    let mut registry = ToolRegistry::stub(VecDeque::from([
        ToolResult::Search { hits: vec![] },
        ToolResult::Failed {
            tool: "fetch".to_owned(),
            reason: "boom".to_owned(),
        },
    ]));
    let first = registry.execute(&call("search", "{}"));
    assert!(matches!(first, ToolResult::Search { .. }));
    let second = registry.execute(&call("fetch", "{}"));
    assert!(matches!(second, ToolResult::Failed { .. }));
    let third = registry.execute(&call("search", "{}"));
    match third {
        ToolResult::Failed { reason, .. } => {
            assert!(reason.contains("stub queue exhausted"), "got {reason}");
        }
        other => panic!("exhausted stub must fail deterministically, got {other:?}"),
    }
}

#[test]
fn unknown_name_is_failed_not_panic() {
    let mut registry = ToolRegistry::live();
    let result = registry.execute(&call("Search", "{}"));
    match result {
        ToolResult::Failed { tool, reason } => {
            assert_eq!(tool, "Search");
            assert!(reason.contains("unknown tool"), "got {reason}");
        }
        other => panic!("unknown name must fail, got {other:?}"),
    }
}

#[test]
fn bad_json_args_are_failed() {
    let mut registry = ToolRegistry::live();
    let result = registry.execute(&call("search", "{bad json"));
    match result {
        ToolResult::Failed { reason, .. } => {
            assert!(reason.contains("not valid JSON"), "got {reason}");
        }
        other => panic!("bad JSON must fail, got {other:?}"),
    }
}

#[test]
fn validator_rejection_is_failed() {
    let mut registry = ToolRegistry::live();
    let result = registry.execute(&call("search", r#"{"query": ""}"#));
    match result {
        ToolResult::Failed { reason, .. } => {
            assert!(reason.contains("invalid args for 'search'"), "got {reason}");
        }
        other => panic!("invalid args must fail, got {other:?}"),
    }
    let fetch_result = registry.execute(&call("fetch", r#"{"url": "ftp://x/y"}"#));
    match fetch_result {
        ToolResult::Failed { reason, .. } => {
            assert!(reason.contains("invalid args for 'fetch'"), "got {reason}");
        }
        other => panic!("invalid fetch args must fail, got {other:?}"),
    }
}

#[test]
fn live_valid_args_return_canned_results() {
    let mut registry = ToolRegistry::live();
    let search = registry.execute(&call("search", r#"{"query": "obscura"}"#));
    assert!(matches!(search, ToolResult::Search { .. }));
    let fetch = registry.execute(&call("fetch", r#"{"url": "https://example.com/a"}"#));
    assert!(matches!(fetch, ToolResult::Fetch { .. }));
}

#[test]
fn render_shapes() {
    let empty = ToolResult::Search { hits: vec![] };
    assert_eq!(empty.render(), "no results");
    assert!(empty.is_success());
    let failed = ToolResult::Failed {
        tool: "search".to_owned(),
        reason: "boom".to_owned(),
    };
    assert_eq!(failed.render(), "FAILED: boom");
    assert!(!failed.is_success());
    assert_eq!(failed.url(), None);
    let hit = ToolResult::Search {
        hits: vec![SearchHit {
            title: "T".to_owned(),
            url: "https://example.com/t".to_owned(),
            snippet: "S".to_owned(),
        }],
    };
    assert!(hit.render().contains("https://example.com/t"));
    assert_eq!(hit.url().as_deref(), Some("https://example.com/t"));
}

#[test]
fn pages_and_lists_render_exactly() {
    let page = ToolResult::Fetch {
        page: FetchedPage {
            url: "https://example.com/p".to_owned(),
            title: "Page".to_owned(),
            markdown: "Body".to_owned(),
        },
    };
    assert_eq!(
        page.render(),
        "# Page\nBody\n\nSource: https://example.com/p"
    );
    assert_eq!(page.url().as_deref(), Some("https://example.com/p"));
    let hits = ToolResult::Search {
        hits: vec![
            SearchHit {
                title: "A".to_owned(),
                url: "https://a".to_owned(),
                snippet: "one".to_owned(),
            },
            SearchHit {
                title: "B".to_owned(),
                url: "https://b".to_owned(),
                snippet: "two".to_owned(),
            },
        ],
    };
    assert_eq!(
        hits.render(),
        "- [A](https://a)\n  one\n- [B](https://b)\n  two"
    );
}

#[test]
fn search_arguments_are_checked() {
    let args = |text: &str| {
        call("search", text)
            .parsed_arguments()
            .expect("valid JSON")
    };
    assert_eq!(
        validate_search(&args(r#"{"query": " q "}"#)).map(|a| a.top_k),
        Ok(5)
    );
    assert_eq!(
        validate_search(&args(r#"{"query": "q", "top_k": 10}"#)),
        Ok(SearchArgs {
            query: "q".to_owned(),
            top_k: 10,
        })
    );
    for bad in [
        "[]",
        "{}",
        r#"{"query": 3}"#,
        r#"{"query": "   "}"#,
        r#"{"query": "q", "top_k": 0}"#,
        r#"{"query": "q", "top_k": 11}"#,
        r#"{"query": "q", "top_k": "5"}"#,
        r#"{"query": "q", "top_k": 1.5}"#,
    ] {
        assert!(validate_search(&args(bad)).is_err(), "{bad} must fail");
    }
}

#[test]
fn fetch_arguments_are_checked() {
    let args = |text: &str| {
        call("fetch", text)
            .parsed_arguments()
            .expect("valid JSON")
    };
    assert_eq!(
        validate_fetch(&args(r#"{"url": "https://x.y"}"#)),
        Ok(FetchArgs {
            url: "https://x.y".to_owned(),
            max_chars: 4000,
        })
    );
    assert_eq!(
        validate_fetch(&args(r#"{"url": "http://x.y", "max_chars": 100000}"#)).map(|a| a.max_chars),
        Ok(100_000)
    );
    for bad in [
        "3",
        "{}",
        r#"{"url": null}"#,
        r#"{"url": "x.y"}"#,
        r#"{"url": "https://x.y", "max_chars": 0}"#,
        r#"{"url": "https://x.y", "max_chars": 100001}"#,
        r#"{"url": "https://x.y", "max_chars": -1}"#,
    ] {
        assert!(validate_fetch(&args(bad)).is_err(), "{bad} must fail");
    }
}

#[test]
fn refusals_name_what_came() {
    let parsed = call(
        "search",
        r#"{"n": null, "b": true, "i": 7, "s": "x\"y", "a": [1], "o": {}}"#,
    )
    .parsed_arguments()
    .expect("valid JSON");
    let kinds: Vec<(String, String)> = parsed
        .fields
        .iter()
        .map(|(name, value)| (name.clone(), value_kind(value)))
        .collect();
    let of = |name: &str| {
        kinds
            .iter()
            .find(|(n, _)| n == name)
            .map(|(_, k)| k.as_str())
            .expect("field")
    };
    assert_eq!(of("a"), "an array");
    assert_eq!(of("o"), "an object");
    assert!(of("s").contains(r#"x\"y"#), "got {}", of("s"));
    assert!(of("i").contains('7'), "got {}", of("i"));
    assert!(of("b").contains("true"), "got {}", of("b"));
}

#[test]
fn live_failures_tell_their_cause() {
    let mut registry = ToolRegistry::live();
    assert_eq!(
        reason_of(registry.execute(&call("nope", "{}"))),
        "unknown tool 'nope'"
    );
    assert!(reason_of(registry.execute(&call("fetch", "[]"))).contains("invalid args for 'fetch'"));
}
