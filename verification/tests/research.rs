//! One research run from request to record.

use serde_json::Value;
use web_agent_research::json::Json;
use web_agent_research::shared::agent_loop::runner::{
    CallOutcome, LoopRun, LoopStep, ToolEvidence,
};
use web_agent_research::shared::agent_loop::synthesis::parse_answer;
use web_agent_research::shared::agent_loop::{LoopError, RunReport, ToolRegistry};
use web_agent_research::shared::gateway::config::GatewayEnv;
use web_agent_research::shared::gateway::reply::{
    read_turn, ChatResponse, Choice, ResponseMessage, ResponseUsage, ToolCall, ToolFunction,
};
use web_agent_research::shared::gateway::{GatewayError, TokenUsage};
use web_agent_research::shared::types::synthesis::SynthesisSize;
use web_agent_research::slices::search::handler::{
    default_max_turns, exit_for, map_loop_error, plan_research, record_research, session_file_name,
    session_id, size_argument, size_from_name, ResearchRecord,
};
use web_agent_research::{
    render, CitationDTO, ResearchError, ResearchRequest, ResearchResponse, SynthesisDTO, ThemeDTO,
    UsageDTO,
};

fn env(api_key: Option<&str>) -> GatewayEnv {
    GatewayEnv {
        api_key: api_key.map(str::to_owned),
        base_url: None,
        model: None,
        reasoning_effort: None,
        max_tokens: None,
        timeout_secs: None,
        max_attempts: None,
    }
}

fn request(goal: &str, max_turns: u32) -> ResearchRequest {
    ResearchRequest {
        goal: goal.to_owned(),
        size: SynthesisSize::Small,
        max_turns,
        session_id: Some("test-a1".to_owned()),
        session_out: None,
    }
}

fn evidence(turn: u32, url: Option<&str>, excerpt: &str) -> ToolEvidence {
    ToolEvidence {
        turn,
        id: format!("c{turn}"),
        tool: "search".to_owned(),
        excerpt: excerpt.to_owned(),
        url: url.map(str::to_owned),
    }
}

fn final_text() -> &'static str {
    "The Obscura engine powers headless browsing.\n\n## Findings\n\n- Point one with [t](https://example.com/t).\n"
}

fn report() -> RunReport {
    RunReport {
        synthesis: parse_answer(final_text(), SynthesisSize::Small).expect("answer parses"),
        turns_used: 3,
        failures_used: 0,
        evidence: vec![
            evidence(1, Some("https://example.com/obscura"), "one"),
            evidence(1, None, "nothing"),
            evidence(2, Some("https://example.com/obscura"), "two"),
        ],
        usage: TokenUsage {
            prompt_tokens: 3,
            completion_tokens: 3,
            total_tokens: 6,
            reasoning_tokens: 0,
        },
    }
}

fn response() -> ResearchResponse {
    ResearchResponse {
        session_id: "1788825600-1234".to_owned(),
        synthesis: SynthesisDTO {
            size: SynthesisSize::Medium,
            summary: "summary".to_owned(),
            themes: vec![ThemeDTO {
                title: "T".to_owned(),
                points: vec!["p".to_owned()],
                citations: vec![CitationDTO {
                    url: "https://example.com/t".to_owned(),
                    title: Some("t".to_owned()),
                }],
            }],
            citations: vec![CitationDTO {
                url: "https://example.com/t".to_owned(),
                title: Some("t".to_owned()),
            }],
        },
        turns_used: 3,
        evidence_urls: vec!["https://example.com/t".to_owned()],
        usage: UsageDTO {
            prompt_tokens: 0,
            completion_tokens: 0,
            total_tokens: 0,
            reasoning_tokens: 0,
        },
    }
}

fn at<'a>(value: &'a Json, path: &[&str]) -> &'a Json {
    let mut node = value;
    for name in path {
        node = node.get(name).expect("field");
    }
    node
}

#[test]
fn deep_size_rejected_at_parse() {
    let size = clap::Arg::new("size").long("size").value_parser(|name: &str| {
        size_argument(name)
            .map(|size| size.as_str())
            .ok_or_else(|| format!("unknown size {name}"))
    });
    let command = clap::Command::new("web-agent-research").subcommand(
        clap::Command::new("research")
            .arg(clap::Arg::new("goal"))
            .arg(size),
    );
    let err = command
        .clone()
        .try_get_matches_from(["web-agent-research", "research", "goal", "--size", "deep"])
        .expect_err("deep must not parse");
    let message = err.to_string();
    assert!(
        message.contains("deep"),
        "parse error must name the rejected value, got {message}"
    );
    for name in ["small", "medium", "large"] {
        assert!(command
            .clone()
            .try_get_matches_from(["web-agent-research", "research", "goal", "--size", name])
            .is_ok());
    }
}

#[test]
fn error_mapping_covers_every_variant() {
    assert_eq!(exit_for(&ResearchError::NotConfigured("x".to_owned())), 2);
    assert_eq!(
        exit_for(&ResearchError::GatewayExhausted("x".to_owned())),
        3
    );
    assert_eq!(exit_for(&ResearchError::ToolFailure("x".to_owned())), 4);
    assert_eq!(exit_for(&ResearchError::BudgetExhausted { turns: 8 }), 5);
    assert_eq!(exit_for(&ResearchError::Io("x".to_owned())), 6);
}

#[test]
fn render_goes_to_stdout_shape() {
    let response = ResearchResponse {
        session_id: "s".to_owned(),
        synthesis: SynthesisDTO {
            size: SynthesisSize::Small,
            summary: "summary text".to_owned(),
            themes: vec![ThemeDTO {
                title: "Findings".to_owned(),
                points: vec!["point one".to_owned()],
                citations: vec![],
            }],
            citations: vec![CitationDTO {
                url: "https://example.com/t".to_owned(),
                title: Some("t".to_owned()),
            }],
        },
        turns_used: 1,
        evidence_urls: vec!["https://example.com/t".to_owned()],
        usage: UsageDTO {
            prompt_tokens: 1,
            completion_tokens: 1,
            total_tokens: 2,
            reasoning_tokens: 0,
        },
    };
    let printed = render(&response);
    assert!(printed.contains("summary text"));
    assert!(printed.contains("Sources:"));
    assert!(printed.contains("https://example.com/t"));
}

#[test]
fn rendered_text_is_exact() {
    let mut shown = response();
    shown.synthesis.citations.push(CitationDTO {
        url: "https://example.com/u".to_owned(),
        title: None,
    });
    assert_eq!(
        render(&shown),
        "summary\n\n## T\n\n- p\n\nSources:\n1. [t](https://example.com/t)\n2. [https://example.com/u](https://example.com/u)\n"
    );
}

#[test]
fn response_json_shape_is_client_ready() {
    let value = response().to_json();
    assert_eq!(at(&value, &["session_id"]).as_str(), Some("1788825600-1234"));
    assert_eq!(at(&value, &["synthesis", "size"]).as_str(), Some("medium"));
    assert_eq!(at(&value, &["turns_used"]).as_u64(), Some(3));
    let urls = at(&value, &["evidence_urls"]).as_array().expect("urls");
    assert_eq!(urls[0].as_str(), Some("https://example.com/t"));
    assert_eq!(at(&value, &["usage", "total_tokens"]).as_u64(), Some(0));
}

#[test]
fn untitled_citations_have_no_title_field() {
    let bare = CitationDTO {
        url: "https://x".to_owned(),
        title: None,
    };
    assert!(bare.to_json().get("title").is_none());
}

#[test]
fn request_size_parses_lowercase() {
    let body: Value = serde_json::from_str(r#"{"goal":"g","size":"large","max_turns":8}"#)
        .expect("request deserializes");
    let req = ResearchRequest {
        goal: body["goal"].as_str().expect("goal").to_owned(),
        size: size_from_name(body["size"].as_str().expect("size")).expect("known size"),
        max_turns: body["max_turns"].as_u64().expect("turns") as u32,
        session_id: body["session_id"].as_str().map(str::to_owned),
        session_out: None,
    };
    assert_eq!(req.size, SynthesisSize::Large);
    assert_eq!(req.session_id, None);
    assert_eq!(req.size.as_str(), "large");
    assert_eq!(size_from_name("Large"), None);
}

#[test]
fn empty_goal_is_not_configured_without_io() {
    let err = plan_research(&request("   ", 8), &env(Some("dummy")))
        .err()
        .expect("empty goal must fail");
    assert!(
        matches!(err, ResearchError::NotConfigured(_)),
        "empty goal must be NotConfigured, got {err:?}"
    );
}

#[test]
fn zero_max_turns_is_not_configured() {
    let err = plan_research(
        &request("What is the Obscura headless browser?", 0),
        &env(Some("dummy")),
    )
    .err()
    .expect("max_turns=0 must fail");
    assert!(
        matches!(err, ResearchError::NotConfigured(_)),
        "max_turns=0 must be NotConfigured, got {err:?}"
    );
}

#[test]
fn missing_key_is_not_configured() {
    let err = plan_research(&request("goal", 8), &env(None))
        .err()
        .expect("no key must fail");
    assert_eq!(
        err.to_string(),
        "research not configured: GATEWAY_API_KEY is not set"
    );
}

#[test]
fn plans_allow_both_tools() {
    let plan = plan_research(&request("goal", 5), &env(Some("dummy"))).ok().expect("a plan");
    assert_eq!(plan.input.goal, "goal");
    assert_eq!(plan.input.allowed_tools, vec!["search", "fetch"]);
    assert_eq!(plan.budget.max_turns, 5);
    assert_eq!(plan.budget.max_repairs, 2);
    assert_eq!(plan.config.api_key(), "dummy");
    assert_eq!(default_max_turns(), 8);
}

/// One scripted reply of the gateway, counted as one token each way.
fn reply_body(content: &str, calls: Vec<ToolCall>) -> ChatResponse {
    let finish_reason = if calls.is_empty() { "stop" } else { "tool_calls" };
    ChatResponse {
        choices: vec![Choice {
            message: ResponseMessage {
                content: Some(content.to_owned()),
                refusal: None,
                reasoning_content: None,
                reasoning: None,
                reasoning_details: vec![],
                tool_calls: calls,
            },
            finish_reason: Some(finish_reason.to_owned()),
        }],
        usage: Some(ResponseUsage {
            prompt_tokens: 1,
            completion_tokens: 1,
            total_tokens: 2,
            completion_tokens_details: None,
        }),
    }
}

fn tool_call(id: &str, name: &str, arguments: &str) -> ToolCall {
    ToolCall {
        id: Some(id.to_owned()),
        function: Some(ToolFunction {
            name: Some(name.to_owned()),
            arguments: Some(arguments.to_owned()),
        }),
    }
}

/// Runs a request against scripted replies: a search, a fetch and the answer.
fn hermetic_run(tag: &str) -> ResearchRecord {
    let req = ResearchRequest {
        goal: "What is the Obscura headless browser?".to_owned(),
        size: SynthesisSize::Small,
        max_turns: 8,
        session_id: Some(format!("test-{tag}")),
        session_out: None,
    };
    let plan = plan_research(&req, &env(Some("dummy"))).ok().expect("a plan");
    let mut tools = ToolRegistry::live();
    let budget = plan.budget;
    let mut run = LoopRun::start(&tools, plan.input, budget).expect("run starts");
    let replies = [
        reply_body(
            "",
            vec![tool_call("c1", "search", r#"{"query": "obscura"}"#)],
        ),
        reply_body(
            "fetching now",
            vec![tool_call(
                "c2",
                "fetch",
                r#"{"url": "https://example.com/obscura"}"#,
            )],
        ),
        reply_body(final_text(), vec![]),
    ];
    for (asked, body) in replies.iter().enumerate() {
        assert_eq!(run.turn() as usize, asked + 1);
        let step = match run.on_reply(&tools, read_turn(body, true)) {
            LoopStep::Dispatch(waiting, mut turn, output) => {
                while let Some(call) = turn.next_call() {
                    let result = tools.execute(&call);
                    turn.record(CallOutcome::Finished(result));
                }
                let outcome = turn.finish(&tools);
                waiting.on_turn(output, outcome)
            }
            other => other,
        };
        match step {
            LoopStep::Ask(next) => run = next,
            LoopStep::Done(result) => {
                let report = result.expect("hermetic run must succeed");
                let id = session_id(&req.session_id, 0, 1);
                return record_research(&req.goal, req.size, id, report, 0);
            }
            LoopStep::Dispatch(..) => panic!("a turn is dispatched once"),
        }
    }
    panic!("the script must end in an answer")
}

#[test]
fn hermetic_run_prints_synthesis_with_citation() {
    let response = hermetic_run("a1").response;
    assert!(!response.synthesis.summary.is_empty());
    assert!(
        !response.synthesis.citations.is_empty(),
        "FINAL link must surface as a citation"
    );
    assert_eq!(response.turns_used, 3);

    let printed = render(&response);
    assert!(printed.contains(&response.synthesis.summary));
    assert!(printed.contains("Sources:"));
    assert!(printed.contains("https://example.com/t"));
}

#[test]
fn hermetic_response_shape_echoes_session_and_sums_usage() {
    let record = hermetic_run("a3");
    let response = &record.response;
    assert_eq!(response.session_id, "test-a3");
    // The live registry returns the same canned URL per tool turn, in turn
    // order.
    assert_eq!(
        response.evidence_urls,
        vec![
            "https://example.com/obscura".to_owned(),
            "https://example.com/obscura".to_owned()
        ]
    );
    assert_eq!(response.usage.prompt_tokens, 3);
    assert_eq!(response.usage.completion_tokens, 3);
    assert_eq!(response.usage.total_tokens, 6);
    assert_eq!(record.header.session_id, "test-a3");
    assert_eq!(1 + record.rows.len(), 4, "header + 3 turn rows");
}

#[test]
fn only_the_last_row_has_the_synthesis() {
    let record = record_research(
        "goal",
        SynthesisSize::Small,
        "s".to_owned(),
        report(),
        1_788_825_600,
    );
    assert_eq!(record.header.size, "small");
    assert_eq!(record.header.goal, "goal");
    let found: Vec<usize> = record.rows.iter().map(|row| row.evidence.len()).collect();
    assert_eq!(found, vec![1, 1, 0]);
    assert_eq!(record.rows[0].evidence[0].markdown, "one");
    assert_eq!(
        record.rows[0].evidence[0].collected_at,
        "2026-09-08T00:00:00Z"
    );
    let turns: Vec<u32> = record.rows.iter().map(|row| row.turn).collect();
    assert_eq!(turns, vec![1, 2, 3]);
    assert!(record.rows[0].synthesis.is_none());
    assert!(record.rows[1].synthesis.is_none());
    assert_eq!(record.rows[1].usage.total_tokens, 0);
    assert_eq!(record.rows[2].usage.total_tokens, 6);
    assert_eq!(
        record.rows[2].synthesis,
        Some(record.response.synthesis.to_json())
    );
}

#[test]
fn loop_failures_become_research_failures() {
    let told = |err: LoopError| map_loop_error(err).to_string();
    assert_eq!(
        told(LoopError::NoStart("x".to_owned())),
        "research not configured: x"
    );
    assert_eq!(
        told(LoopError::Gateway(GatewayError::RateLimited {
            retry_after_secs: None,
        })),
        "gateway exhausted: gateway rate-limited; retry later or abort"
    );
    assert_eq!(
        told(LoopError::Gateway(GatewayError::Auth)),
        "gateway exhausted: gateway auth failed (bad API key)"
    );
    assert_eq!(
        told(LoopError::ToolFailed {
            reason: "boom".to_owned(),
        }),
        "tool failure: boom"
    );
    assert_eq!(
        told(LoopError::InvalidToolCall {
            reason: "bad".to_owned(),
        }),
        "tool failure: bad"
    );
    assert_eq!(
        told(LoopError::BudgetExhausted { turns: 8 }),
        "turn budget exhausted after 8 turns"
    );
    assert_eq!(
        ResearchError::Io("full".to_owned()).to_string(),
        "session write failed: full"
    );
}

#[test]
fn sessions_are_named_after_time_and_process() {
    assert_eq!(session_id(&None, 1_788_825_600, 1234), "1788825600-1234");
    assert_eq!(session_id(&Some("mine".to_owned()), 0, 1), "mine");
    assert_eq!(session_file_name("mine"), "mine.jsonl");
}
