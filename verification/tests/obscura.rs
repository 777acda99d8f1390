//! The Obscura engine and the fetch tool.

use std::path::PathBuf;
use web_agent_research::foreign::ToolArguments;
use web_agent_research::json::Json;
use web_agent_research::shared::gateway::RequestedToolCall;
use web_agent_research::shared::obscura::browser::{
    command_arguments, contains_guarded, is_blocked, normalize_url, tail, CommandRun, FetchError,
    FetchedMarkdown, Neighbor, Obscura,
};
use web_agent_research::shared::tools::fetch::{
    fetch_evidence, fetch_target, fetch_tool_schema, FetchInput, FETCH_TOOL_NAME,
};
use web_agent_research::time::Duration;

const URL: &str = "https://example.com/page";

fn exited(success: bool, stdout: &str, stderr: &str) -> CommandRun {
    CommandRun::Exited {
        success,
        status: if success {
            "exit status: 0".to_string()
        } else {
            "exit status: 1".to_string()
        },
        stdout: stdout.as_bytes().to_vec(),
        stderr: stderr.as_bytes().to_vec(),
    }
}

fn conclude(run: CommandRun) -> Result<FetchedMarkdown, FetchError> {
    Obscura::default().conclude(URL.to_string(), &run)
}

fn input(text: &str) -> ToolArguments {
    RequestedToolCall {
        id: String::new(),
        name: "fetch".to_string(),
        arguments: text.to_string(),
    }
    .parsed_arguments()
    .expect("valid JSON")
}

#[test]
fn the_engine_has_defaults() {
    let engine = Obscura::default();
    assert_eq!(engine.binary, PathBuf::from("obscura"));
    assert_eq!(engine.timeout, Duration::from_secs(60));
    let other = Obscura::new(PathBuf::from("/opt/engine"), Duration::from_millis(200));
    assert_eq!(other.binary, PathBuf::from("/opt/engine"));
    assert_eq!(other.timeout, Duration::from_millis(200));
    let copy = other.clone();
    assert_eq!(copy.binary, other.binary);
    assert_eq!(copy.timeout, other.timeout);
}

#[test]
fn invalid_urls_are_refused_before_a_command_runs() {
    for raw in ["not-a-url", "", "ftp://x/y", "/relative/path"] {
        assert_eq!(
            normalize_url(raw),
            Err(FetchError::InvalidUrl {
                input: raw.to_string(),
            })
        );
    }
    assert_eq!(
        normalize_url("HTTPS://Example.COM"),
        Ok("https://example.com/".to_string())
    );
}

#[test]
fn the_command_asks_for_markdown() {
    assert_eq!(
        command_arguments(URL),
        vec!["fetch", URL, "--dump", "markdown", "--quiet"]
    );
}

#[test]
fn clean_output_is_a_trimmed_page() {
    let page = conclude(exited(true, "\n# Title\n\nbody\n", "")).expect("a page");
    assert_eq!(page.url, URL);
    assert_eq!(page.markdown, "# Title\n\nbody");
}

#[test]
fn blank_output_is_an_empty_body() {
    assert_eq!(
        conclude(exited(true, " \n\t", "")),
        Err(FetchError::EmptyBody {
            url: URL.to_string(),
        })
    );
}

#[test]
fn denials_count_whatever_the_exit_status() {
    for success in [true, false] {
        assert_eq!(
            conclude(exited(
                success,
                "# Title",
                " access forbidden (bot denied)\n"
            )),
            Err(FetchError::Blocked {
                url: URL.to_string(),
                reason: "access forbidden (bot denied)".to_string(),
            })
        );
    }
}

#[test]
fn robots_chatter_is_no_denial() {
    let page = conclude(exited(true, "text", "respecting robots.txt for /slow")).expect("a page");
    assert_eq!(page.markdown, "text");
}

#[test]
fn other_failures_keep_status_and_message() {
    assert_eq!(
        conclude(exited(false, "", "boom")),
        Err(FetchError::CommandFailed {
            url: URL.to_string(),
            detail: "exit exit status: 1: boom".to_string(),
        })
    );
    assert_eq!(
        conclude(CommandRun::Broken {
            reason: "No such file".to_string(),
        }),
        Err(FetchError::CommandFailed {
            url: URL.to_string(),
            detail: "No such file".to_string(),
        })
    );
}

#[test]
fn timeouts_name_the_limit() {
    let engine = Obscura::new(PathBuf::from("obscura"), Duration::from_millis(200));
    let err = engine
        .conclude(URL.to_string(), &CommandRun::TimedOut)
        .expect_err("a timeout");
    assert_eq!(
        err,
        FetchError::Timeout {
            url: URL.to_string(),
            after: Duration::from_millis(200),
        }
    );
    assert_eq!(err.to_string(), format!("timeout: {URL} after 200ms"));
    let minute = FetchError::Timeout {
        url: URL.to_string(),
        after: Duration::from_secs(60),
    };
    assert_eq!(minute.to_string(), format!("timeout: {URL} after 60s"));
}

#[test]
fn fetch_failures_in_words() {
    assert_eq!(
        FetchError::InvalidUrl {
            input: "x".to_string(),
        }
        .to_string(),
        "invalid url: x (expected absolute http(s) URL)"
    );
    assert_eq!(
        FetchError::EmptyBody {
            url: "u".to_string(),
        }
        .to_string(),
        "empty body: u returned no markdown"
    );
    assert_eq!(
        FetchError::Blocked {
            url: "u".to_string(),
            reason: "r".to_string(),
        }
        .to_string(),
        "blocked: u: r"
    );
    assert_eq!(
        FetchError::CommandFailed {
            url: "u".to_string(),
            detail: "d".to_string(),
        }
        .to_string(),
        "command failed: u: d"
    );
}

#[test]
fn markers_are_read_in_any_case() {
    for text in [
        "Forbidden",
        "ACCESS DENIED",
        "you are Blocked",
        "CAPTCHA",
        "Rate Limit",
        "rate-limited",
        "Too Many Requests",
        "HTTP 403",
        "403",
        "bot denied",
        "(bot",
        "bot-manager",
    ] {
        assert!(is_blocked(text), "{text} must be a denial");
    }
    for text in ["14034", "4030", "1403", "robots", "botany", "robot", ""] {
        assert!(!is_blocked(text), "{text} must be no denial");
    }
}

#[test]
fn one_free_occurrence_is_enough() {
    assert!(contains_guarded("14034 403", "403", Neighbor::Digit));
    assert!(contains_guarded("é403é", "403", Neighbor::Digit));
    assert!(!contains_guarded("1403", "403", Neighbor::Digit));
    assert!(!contains_guarded("", "403", Neighbor::Digit));
    assert!(!contains_guarded("abc", "", Neighbor::Letter));
}

#[test]
fn tails_are_at_most_500_characters() {
    assert_eq!(tail("  short  "), "short");
    let long = format!("x{}", "é".repeat(500));
    assert_eq!(tail(&long), "é".repeat(500));
}

#[test]
fn broken_bytes_do_not_break_a_fetch() {
    let run = CommandRun::Exited {
        success: true,
        status: "exit status: 0".to_string(),
        stdout: vec![b'a', 0xff, b'b'],
        stderr: vec![],
    };
    assert_eq!(
        conclude(run).expect("a page").markdown,
        "a\u{fffd}b"
    );
}

#[test]
fn fetch_inputs_need_a_string_url() {
    assert_eq!(
        FetchInput::parse(&input(r#"{"url": "https://x", "extra": 1}"#)),
        Ok(FetchInput {
            url: "https://x".to_string(),
        })
    );
    let refused = |text: &str| match FetchInput::parse(&input(text)) {
        Err(FetchError::InvalidUrl { input }) => input,
        other => panic!("expected a refusal, got {other:?}"),
    };
    assert_eq!(refused("[1, 2]"), "[1,2]");
    assert_eq!(refused("{}"), "");
    assert_eq!(refused(r#"{"url": {"a": 1}}"#), r#"{"a":1}"#);
    assert_eq!(refused(r#"{"url": null}"#), "null");
}

#[test]
fn fetch_targets_are_normalized() {
    assert_eq!(
        fetch_target(&input(r#"{"url": "https://Example.com/a"}"#)),
        Ok("https://example.com/a".to_string())
    );
    assert_eq!(
        fetch_target(&input(r#"{"url": "ftp://x/y"}"#)),
        Err(FetchError::InvalidUrl {
            input: "ftp://x/y".to_string(),
        })
    );
}

#[test]
fn fetched_pages_become_evidence() {
    let engine = Obscura::default();
    let evidence = fetch_evidence(&engine, URL.to_string(), &exited(true, " text ", ""))
        .expect("evidence");
    assert_eq!(evidence.source_url, URL);
    assert_eq!(evidence.markdown, "text");
    assert_eq!(evidence.collected_at.len(), 20);
    assert!(fetch_evidence(&engine, URL.to_string(), &CommandRun::TimedOut).is_err());
}

#[test]
fn the_fetch_schema_asks_for_one_url() {
    let schema = fetch_tool_schema();
    assert_eq!(
        schema.get("name").and_then(Json::as_str),
        Some(FETCH_TOOL_NAME)
    );
    let parameters = schema.get("parameters").expect("parameters");
    assert_eq!(
        parameters.get("additionalProperties"),
        Some(&Json::Bool(false))
    );
    let required = parameters
        .get("required")
        .and_then(Json::as_array)
        .expect("required");
    assert_eq!(required, &vec![Json::text("url")]);
    let url = parameters
        .get("properties")
        .and_then(|p| p.get("url"))
        .expect("url");
    assert_eq!(url.get("format").and_then(Json::as_str), Some("uri"));
}
