//! The agent loop, driven by scripted replies.

use std::collections::VecDeque;
use web_agent_research::shared::agent_loop::context::{assemble, HistoryEntry};
use web_agent_research::shared::agent_loop::registry::{
    FetchedPage, SearchHit, ToolRegistry, ToolResult,
};
use web_agent_research::shared::agent_loop::runner::{
    empty_answer_observation, is_dispatch_failure, roster_footer, CallOutcome, LoopRun, LoopStep,
};
use web_agent_research::shared::agent_loop::{LoopBudget, LoopError, LoopInput, RunReport};
use web_agent_research::shared::gateway::client::{map_status, plan_turn};
use web_agent_research::shared::gateway::reply::{
    read_turn, ChatResponse, Choice, ResponseMessage, ResponseUsage, ToolCall, ToolFunction,
};
use web_agent_research::shared::gateway::{GatewayConfig, GatewayError, ToolChoice};
use web_agent_research::shared::prompts::execute::build_system_prompt;
use web_agent_research::shared::types::synthesis::SynthesisSize;
use web_agent_research::time::Duration;

/// One scripted answer of the gateway: a status and a body.
struct Scripted {
    status: u16,
    body: ChatResponse,
}

fn message(content: &str) -> ResponseMessage {
    ResponseMessage {
        content: Some(content.to_owned()),
        refusal: None,
        reasoning_content: None,
        reasoning: None,
        reasoning_details: vec![],
        tool_calls: vec![],
    }
}

fn body_of(message: ResponseMessage, finish_reason: &str) -> ChatResponse {
    ChatResponse {
        choices: vec![Choice {
            message,
            finish_reason: Some(finish_reason.to_owned()),
        }],
        usage: Some(ResponseUsage {
            prompt_tokens: 1,
            completion_tokens: 1,
            total_tokens: 2,
            completion_tokens_details: None,
        }),
    }
}

fn ok(body: ChatResponse) -> Scripted {
    Scripted { status: 200, body }
}

fn failing(status: u16) -> Scripted {
    Scripted {
        status,
        body: ChatResponse {
            choices: vec![],
            usage: None,
        },
    }
}

fn text_body(text: &str) -> ChatResponse {
    body_of(message(text), "stop")
}

fn tool_call(id: &str, name: &str, arguments: &str) -> ToolCall {
    ToolCall {
        id: Some(id.to_owned()),
        function: Some(ToolFunction {
            name: Some(name.to_owned()),
            arguments: Some(arguments.to_owned()),
        }),
    }
}

fn tools_body(calls: Vec<ToolCall>, content: &str) -> ChatResponse {
    let mut with_calls = message(content);
    with_calls.tool_calls = calls;
    body_of(with_calls, "tool_calls")
}

fn refusal_body(text: &str, calls: Vec<ToolCall>) -> ChatResponse {
    let mut refused = message("");
    refused.refusal = Some(text.to_owned());
    refused.tool_calls = calls;
    body_of(refused, "stop")
}

fn final_answer() -> String {
    "Summary with [evidence](https://example.com/t).\n\n## Findings\n\n- Point one.\n".to_owned()
}

fn canned_search() -> ToolResult {
    ToolResult::Search {
        hits: vec![SearchHit {
            title: "T".to_owned(),
            url: "https://example.com/t".to_owned(),
            snippet: "S".to_owned(),
        }],
    }
}

fn canned_fetch() -> ToolResult {
    ToolResult::Fetch {
        page: FetchedPage {
            url: "https://example.com/t".to_owned(),
            title: "T".to_owned(),
            markdown: "Body".to_owned(),
        },
    }
}

fn boom() -> ToolResult {
    ToolResult::Failed {
        tool: "search".to_owned(),
        reason: "boom".to_owned(),
    }
}

fn stub_tools(results: Vec<ToolResult>) -> ToolRegistry {
    ToolRegistry::stub(VecDeque::from(results))
}

fn loop_input(allowed: &[&str]) -> LoopInput {
    LoopInput {
        goal: "What is the Obscura engine?".to_owned(),
        size: SynthesisSize::Medium,
        allowed_tools: allowed.iter().map(|name| (*name).to_owned()).collect(),
    }
}

/// What was asked of the gateway, call by call.
struct Asked {
    messages: usize,
    tools: Option<Vec<String>>,
}

fn drive(
    script: Vec<Scripted>,
    mut tools: ToolRegistry,
    input: LoopInput,
    budget: LoopBudget,
    hang: bool,
) -> (Result<RunReport, LoopError>, Vec<Asked>) {
    let mut asked = Vec::new();
    let mut script = script.into_iter();
    let mut run = match LoopRun::start(&tools, input, budget) {
        Ok(run) => run,
        Err(err) => return (Err(err), asked),
    };
    loop {
        let defs = run.tool_defs(&tools);
        asked.push(Asked {
            messages: run.messages().len(),
            tools: defs
                .as_ref()
                .map(|defs| defs.iter().map(|def| def.name.clone()).collect()),
        });
        let next = script.next().expect("the script must not run out");
        let reply = match map_status(next.status, &None) {
            Some(err) => Err(err),
            None => read_turn(&next.body, defs.is_some()),
        };
        let step = match run.on_reply(&tools, reply) {
            LoopStep::Dispatch(waiting, mut turn, output) => {
                while let Some(call) = turn.next_call() {
                    let outcome = if hang {
                        CallOutcome::TimedOut
                    } else {
                        CallOutcome::Finished(tools.execute(&call))
                    };
                    turn.record(outcome);
                }
                let outcome = turn.finish(&tools);
                waiting.on_turn(output, outcome)
            }
            other => other,
        };
        match step {
            LoopStep::Ask(going) => run = going,
            LoopStep::Done(result) => return (result, asked),
            LoopStep::Dispatch(..) => panic!("a turn is dispatched once"),
        }
    }
}

fn run(
    script: Vec<Scripted>,
    tools: ToolRegistry,
    allowed: &[&str],
    budget: LoopBudget,
) -> Result<RunReport, LoopError> {
    drive(script, tools, loop_input(allowed), budget, false).0
}

#[test]
fn three_turn_run_to_final() {
    let report = run(
        vec![
            ok(tools_body(
                vec![tool_call("c1", "search", r#"{"query": "obscura"}"#)],
                "",
            )),
            ok(tools_body(
                vec![tool_call(
                    "c2",
                    "fetch",
                    r#"{"url": "https://example.com/t"}"#,
                )],
                "fetching now",
            )),
            ok(text_body(&final_answer())),
        ],
        stub_tools(vec![canned_search(), canned_fetch()]),
        &["search", "fetch"],
        LoopBudget::default(),
    )
    .expect("three-turn run must finalize");
    assert_eq!(report.turns_used, 3);
    assert!(!report.synthesis.summary.is_empty());
    assert_eq!(report.synthesis.size, SynthesisSize::Medium);
    assert!(
        report
            .synthesis
            .citations
            .iter()
            .any(|citation| citation.url == "https://example.com/t"),
        "citations must contain the stub URL"
    );
    assert_eq!(report.evidence.len(), 2);
    assert_eq!(report.evidence[0].turn, 1);
    assert_eq!(report.evidence[1].turn, 2);
    assert_eq!(report.failures_used, 0);
    assert_eq!(report.usage.total_tokens, 6);
}

#[test]
fn mixed_text_plus_calls_continues() {
    let report = run(
        vec![
            ok(tools_body(
                vec![tool_call("c1", "search", r#"{"query": "obscura"}"#)],
                "thinking out loud",
            )),
            ok(text_body(&final_answer())),
        ],
        stub_tools(vec![canned_search()]),
        &["search", "fetch"],
        LoopBudget::default(),
    )
    .expect("mixed turn must continue, not finalize");
    assert_eq!(report.turns_used, 2);
    assert!(!report.synthesis.summary.is_empty());
}

#[test]
fn schema_injection_sends_tools_and_auto_choice() {
    let tools = stub_tools(vec![]);
    let started = LoopRun::start(
        &tools,
        loop_input(&["search", "fetch"]),
        LoopBudget::default(),
    )
    .expect("run starts");
    let config = GatewayConfig::new(
        "http://127.0.0.1:1".to_owned(),
        "test-key".to_owned(),
        "m".to_owned(),
    );
    let planned = plan_turn(
        &config,
        started.messages(),
        started.tool_defs(&tools),
        Some(ToolChoice::Auto),
    )
    .expect("turn is planned");
    let offered = planned
        .body
        .get("tools")
        .and_then(|v| v.as_array())
        .expect("tools array");
    assert_eq!(offered.len(), 2);
    for (tool, (name, field)) in offered.iter().zip([("search", "query"), ("fetch", "url")]) {
        assert_eq!(tool.get("type").and_then(|v| v.as_str()), Some("function"));
        let function = tool.get("function").expect("function");
        assert_eq!(function.get("name").and_then(|v| v.as_str()), Some(name));
        let parameters = function.get("parameters").expect("parameters");
        assert_eq!(
            parameters.get("type").and_then(|v| v.as_str()),
            Some("object")
        );
        let required = parameters
            .get("required")
            .and_then(|v| v.as_array())
            .expect("required");
        assert!(required.iter().any(|v| v.as_str() == Some(field)));
    }
    assert_eq!(
        planned.body.get("tool_choice").and_then(|v| v.as_str()),
        Some("auto")
    );
}

#[test]
fn zero_tool_run_uses_plain_chat_shape() {
    let (result, asked) = drive(
        vec![ok(text_body(&final_answer()))],
        stub_tools(vec![]),
        loop_input(&[]),
        LoopBudget::default(),
        false,
    );
    let report = result.expect("zero-tool run must finalize");
    assert_eq!(report.turns_used, 1);
    assert_eq!(asked.len(), 1);
    assert_eq!(asked[0].tools, None, "plain chat must omit tools");
}

#[test]
fn over_cap_calls_note_dropped_excess() {
    let calls = vec![
        tool_call("c1", "search", r#"{"query": "a"}"#),
        tool_call("c2", "search", r#"{"query": "b"}"#),
        tool_call("c3", "search", r#"{"query": "c"}"#),
        tool_call("c4", "search", r#"{"query": "d"}"#),
    ];
    let report = run(
        vec![ok(tools_body(calls, "")), ok(text_body(&final_answer()))],
        stub_tools(vec![canned_search(), canned_search(), canned_search()]),
        &["search"],
        LoopBudget {
            max_tools_per_turn: 3,
            ..LoopBudget::default()
        },
    )
    .expect("over-cap turn must still finalize");
    assert_eq!(report.turns_used, 2);
    assert_eq!(report.evidence.len(), 3);
}

#[test]
fn rejects_empty_goal() {
    let (result, asked) = drive(
        vec![],
        stub_tools(vec![]),
        LoopInput {
            goal: "   ".to_owned(),
            size: SynthesisSize::Medium,
            allowed_tools: vec![],
        },
        LoopBudget::default(),
        false,
    );
    let err = result.expect_err("empty goal must not start");
    assert!(matches!(err, LoopError::NoStart(_)));
    assert!(asked.is_empty(), "no I/O on NoStart");
}

#[test]
fn unknown_tool_is_no_start() {
    let err = run(
        vec![],
        stub_tools(vec![]),
        &["nope"],
        LoopBudget::default(),
    )
    .expect_err("unknown allowed tool must not start");
    match err {
        LoopError::NoStart(reason) => assert!(reason.contains("unknown tool: nope")),
        other => panic!("expected NoStart, got {other:?}"),
    }
}

#[test]
fn zero_turns_and_zero_context_are_no_start() {
    let err = run(
        vec![],
        stub_tools(vec![]),
        &[],
        LoopBudget {
            max_turns: 0,
            ..LoopBudget::default()
        },
    )
    .expect_err("max_turns == 0 must not start");
    assert!(matches!(err, LoopError::NoStart(_)));
    let err = run(
        vec![],
        stub_tools(vec![]),
        &[],
        LoopBudget {
            max_context_chars: 0,
            ..LoopBudget::default()
        },
    )
    .expect_err("max_context_chars == 0 must not start");
    assert!(matches!(err, LoopError::NoStart(_)));
}

#[test]
fn no_start_without_key() {
    let tools = stub_tools(vec![]);
    let started = LoopRun::start(&tools, loop_input(&["search"]), LoopBudget::default())
        .expect("run starts");
    let config = GatewayConfig::new(
        "http://127.0.0.1:1".to_owned(),
        String::new(),
        "m".to_owned(),
    );
    let err = plan_turn(
        &config,
        started.messages(),
        started.tool_defs(&tools),
        Some(ToolChoice::Auto),
    )
    .expect_err("no key, no turn");
    match started.on_reply(&tools, Err(err)) {
        LoopStep::Done(Err(LoopError::NoStart(_))) => {}
        other => panic!("missing key must map to NoStart, got {other:?}"),
    }
}

#[test]
fn auth_aborts() {
    let err = run(
        vec![failing(401)],
        stub_tools(vec![]),
        &["search"],
        LoopBudget::default(),
    )
    .expect_err("auth must abort");
    assert!(matches!(err, LoopError::Gateway(GatewayError::Auth)));
}

#[test]
fn retryable_exhausted_aborts() {
    let err = run(
        vec![failing(500)],
        stub_tools(vec![]),
        &["search"],
        LoopBudget::default(),
    )
    .expect_err("exhausted 500 must abort");
    assert!(matches!(
        err,
        LoopError::Gateway(GatewayError::Server { status: 500 })
    ));
}

#[test]
fn client_error_aborts() {
    let err = run(
        vec![failing(404)],
        stub_tools(vec![]),
        &["search"],
        LoopBudget::default(),
    )
    .expect_err("4xx must abort");
    assert!(matches!(
        err,
        LoopError::Gateway(GatewayError::Client { status: 404 })
    ));
}

#[test]
fn refusal_aborts() {
    let err = run(
        vec![ok(refusal_body("nope", vec![]))],
        stub_tools(vec![]),
        &["search"],
        LoopBudget::default(),
    )
    .expect_err("refusal must abort");
    assert!(matches!(err, LoopError::Gateway(GatewayError::Refused(_))));
}

#[test]
fn refusal_with_tools_aborts() {
    let err = run(
        vec![ok(refusal_body(
            "nope",
            vec![tool_call("c1", "search", "{}")],
        ))],
        stub_tools(vec![]),
        &["search"],
        LoopBudget::default(),
    )
    .expect_err("refusal must win over tool calls");
    assert!(matches!(err, LoopError::Gateway(GatewayError::Refused(_))));
}

#[test]
fn unknown_tool_repairs_then_finalizes() {
    let report = run(
        vec![
            ok(tools_body(vec![tool_call("c1", "nope", "{}")], "")),
            ok(text_body(&final_answer())),
        ],
        stub_tools(vec![]),
        &["search"],
        LoopBudget::default(),
    )
    .expect("one unknown tool must repair");
    assert_eq!(report.turns_used, 2);
    assert_eq!(report.failures_used, 1);
}

#[test]
fn unknown_tool_aborts_after_repairs() {
    let repeated = || ok(tools_body(vec![tool_call("c1", "nope", "{}")], ""));
    let err = run(
        vec![repeated(), repeated(), repeated()],
        stub_tools(vec![]),
        &["search"],
        LoopBudget {
            max_repairs: 2,
            ..LoopBudget::default()
        },
    )
    .expect_err("unknown-tool streak must abort");
    match err {
        LoopError::InvalidToolCall { reason } => assert!(reason.contains("unknown tool")),
        other => panic!("expected InvalidToolCall, got {other:?}"),
    }
}

#[test]
fn bad_arguments_json_repairs() {
    let report = run(
        vec![
            ok(tools_body(
                vec![tool_call("c1", "search", "{bad json")],
                "",
            )),
            ok(text_body(&final_answer())),
        ],
        ToolRegistry::live(),
        &["search"],
        LoopBudget::default(),
    )
    .expect("bad JSON must repair");
    assert_eq!(report.turns_used, 2);
    assert_eq!(report.failures_used, 1);
}

#[test]
fn invalid_args_repair_then_abort() {
    let bad = || {
        ok(tools_body(
            vec![tool_call("c1", "search", r#"{"query": ""}"#)],
            "",
        ))
    };
    let err = run(
        vec![bad(), bad()],
        ToolRegistry::live(),
        &["search"],
        LoopBudget {
            max_repairs: 1,
            ..LoopBudget::default()
        },
    )
    .expect_err("invalid-args streak must abort");
    match err {
        LoopError::InvalidToolCall { reason } => assert!(reason.contains("invalid args")),
        other => panic!("expected InvalidToolCall, got {other:?}"),
    }
}

#[test]
fn tool_error_is_observation_then_repair() {
    let report = run(
        vec![
            ok(tools_body(vec![tool_call("c1", "search", "{}")], "")),
            ok(text_body(&final_answer())),
        ],
        stub_tools(vec![boom()]),
        &["search"],
        LoopBudget::default(),
    )
    .expect("executor failure must repair");
    assert_eq!(report.turns_used, 2);
    assert_eq!(report.failures_used, 1);
    assert!(report.evidence.iter().all(|item| item.tool == "search"));
}

#[test]
fn repeated_tool_failure_aborts() {
    let failing_turn = || ok(tools_body(vec![tool_call("c1", "search", "{}")], ""));
    let err = run(
        vec![failing_turn(), failing_turn(), failing_turn()],
        stub_tools(vec![boom(), boom(), boom()]),
        &["search"],
        LoopBudget {
            max_repairs: 2,
            ..LoopBudget::default()
        },
    )
    .expect_err("execution streak must abort");
    match err {
        LoopError::ToolFailed { reason } => assert!(reason.contains("boom")),
        other => panic!("expected ToolFailed, got {other:?}"),
    }
}

#[test]
fn tool_timeout_is_observation_then_repair() {
    let report = drive(
        vec![
            ok(tools_body(
                vec![tool_call("c1", "search", r#"{"query": "a"}"#)],
                "",
            )),
            ok(text_body(&final_answer())),
        ],
        stub_tools(vec![]),
        loop_input(&["search"]),
        LoopBudget {
            tool_timeout: Duration::from_millis(50),
            ..LoopBudget::default()
        },
        true,
    )
    .0
    .expect("timeout must surface as a repairable observation");
    assert_eq!(report.turns_used, 2);
    assert_eq!(report.failures_used, 1);
    assert!(report.evidence.iter().any(|item| item.tool == "search"));
}

#[test]
fn repeated_timeout_aborts_as_tool_failed() {
    let hanging = || {
        ok(tools_body(
            vec![tool_call("c1", "search", r#"{"query": "a"}"#)],
            "",
        ))
    };
    let err = drive(
        vec![hanging(), hanging()],
        stub_tools(vec![]),
        loop_input(&["search"]),
        LoopBudget {
            tool_timeout: Duration::from_millis(50),
            max_repairs: 1,
            ..LoopBudget::default()
        },
        true,
    )
    .0
    .expect_err("timeout streak must abort");
    match err {
        LoopError::ToolFailed { reason } => assert!(reason.contains("timeout after")),
        other => panic!("expected ToolFailed, got {other:?}"),
    }
}

#[test]
fn strict_repairs_zero_aborts_on_first_failure() {
    let err = run(
        vec![ok(tools_body(vec![tool_call("c1", "nope", "{}")], ""))],
        stub_tools(vec![]),
        &["search"],
        LoopBudget {
            max_repairs: 0,
            ..LoopBudget::default()
        },
    )
    .expect_err("max_repairs 0 must abort immediately");
    assert!(matches!(err, LoopError::InvalidToolCall { .. }));
}

#[test]
fn empty_answer_repairs() {
    let report = run(
        vec![ok(text_body("")), ok(text_body(&final_answer()))],
        stub_tools(vec![]),
        &["search"],
        LoopBudget::default(),
    )
    .expect("empty answer must repair");
    assert_eq!(report.turns_used, 2);
    assert_eq!(report.failures_used, 1);
}

#[test]
fn budget_exhausted_aborts() {
    let tool_turn = || {
        ok(tools_body(
            vec![tool_call("c1", "search", r#"{"query": "a"}"#)],
            "",
        ))
    };
    let err = run(
        vec![tool_turn(), tool_turn()],
        stub_tools(vec![canned_search(), canned_search()]),
        &["search"],
        LoopBudget {
            max_turns: 2,
            ..LoopBudget::default()
        },
    )
    .expect_err("no answer within budget must abort");
    match err {
        LoopError::BudgetExhausted { turns } => assert_eq!(turns, 2),
        other => panic!("expected BudgetExhausted, got {other:?}"),
    }
}

#[test]
fn context_grows_across_turns() {
    let (result, asked) = drive(
        vec![
            ok(tools_body(
                vec![tool_call("c1", "search", r#"{"query": "a"}"#)],
                "",
            )),
            ok(tools_body(
                vec![tool_call("c2", "search", r#"{"query": "b"}"#)],
                "still looking",
            )),
            ok(text_body(&final_answer())),
        ],
        stub_tools(vec![canned_search(), canned_search()]),
        loop_input(&["search"]),
        LoopBudget::default(),
        false,
    );
    assert!(result.is_ok());
    let lengths: Vec<usize> = asked.iter().map(|a| a.messages).collect();
    assert_eq!(lengths.len(), 3);
    assert!(lengths[0] < lengths[1], "context must grow: {lengths:?}");
    assert!(lengths[1] < lengths[2], "context must grow: {lengths:?}");
}

#[test]
fn partial_execution_failure_continues_with_next_call() {
    let report = run(
        vec![
            ok(tools_body(
                vec![
                    tool_call("c1", "search", r#"{"query": "a"}"#),
                    tool_call("c2", "search", r#"{"query": "b"}"#),
                ],
                "",
            )),
            ok(text_body(&final_answer())),
        ],
        stub_tools(vec![boom(), canned_search()]),
        &["search"],
        LoopBudget::default(),
    )
    .expect("execution failure must not stop sibling calls");
    assert_eq!(report.turns_used, 2);
    assert_eq!(report.evidence.len(), 2);
    assert_eq!(report.failures_used, 1);
    assert_eq!(report.evidence[0].tool, "search");
}

#[test]
fn mixed_success_resets_failure_streak() {
    let report = run(
        vec![
            ok(tools_body(vec![tool_call("c1", "search", "{}")], "")),
            ok(tools_body(
                vec![
                    tool_call("c1", "search", r#"{"query": "a"}"#),
                    tool_call("c2", "search", r#"{"query": "b"}"#),
                ],
                "",
            )),
            ok(text_body(&final_answer())),
        ],
        stub_tools(vec![boom(), boom(), canned_search()]),
        &["search"],
        LoopBudget {
            max_repairs: 1,
            ..LoopBudget::default()
        },
    )
    .expect("a later success must reset the consecutive counter");
    assert_eq!(report.turns_used, 3);
}

#[test]
fn unknown_tool_after_success_still_repairs() {
    let report = run(
        vec![
            ok(tools_body(
                vec![tool_call(
                    "c1",
                    "fetch",
                    r#"{"url": "https://example.com/a"}"#,
                )],
                "",
            )),
            ok(text_body(&final_answer())),
        ],
        stub_tools(vec![canned_fetch()]),
        &["search"],
        LoopBudget::default(),
    )
    .expect("call outside allowed_tools must repair, not execute");
    assert_eq!(report.turns_used, 2);
    assert_eq!(report.failures_used, 1);
    assert!(report.evidence.is_empty());
}

#[test]
fn loop_error_display_shapes() {
    assert!(LoopError::NoStart("x".to_owned())
        .to_string()
        .contains("cannot start"));
    assert!(LoopError::BudgetExhausted { turns: 2 }
        .to_string()
        .contains('2'));
    let from_gateway: LoopError = GatewayError::Auth.into();
    assert!(matches!(
        from_gateway,
        LoopError::Gateway(GatewayError::Auth)
    ));
}

#[test]
fn loop_failures_in_words() {
    assert_eq!(
        LoopError::ToolFailed {
            reason: "boom".to_owned(),
        }
        .to_string(),
        "tool execution failed, repairs exhausted: boom"
    );
    assert_eq!(
        LoopError::InvalidToolCall {
            reason: "x".to_owned(),
        }
        .to_string(),
        "invalid tool call, repairs exhausted: x"
    );
    assert_eq!(
        LoopError::Gateway(GatewayError::Timeout).to_string(),
        "gateway turn failed: gateway request timed out"
    );
    assert_eq!(
        LoopError::BudgetExhausted { turns: 12 }.to_string(),
        "turn budget exhausted after 12 turns with no final answer"
    );
}

#[test]
fn one_gateway_call_is_one_turn() {
    let turn = || {
        ok(tools_body(
            vec![tool_call("c", "search", r#"{"query": "a"}"#)],
            "",
        ))
    };
    let (result, asked) = drive(
        vec![turn(), turn(), turn(), ok(text_body(&final_answer()))],
        stub_tools(vec![canned_search(), canned_search(), canned_search()]),
        loop_input(&["search"]),
        LoopBudget::default(),
        false,
    );
    let report = result.expect("run ends");
    assert_eq!(asked.len(), 4);
    assert_eq!(report.turns_used, 4);
    let turns: Vec<u32> = report.evidence.iter().map(|e| e.turn).collect();
    assert_eq!(turns, vec![1, 2, 3]);
}

#[test]
fn footers_list_the_allowed_tools() {
    let tools = ToolRegistry::live();
    let footer = roster_footer(&tools, &["fetch".to_owned()]);
    assert!(footer.contains("fetch"));
    assert!(!footer.contains("search"));
    assert!(
        empty_answer_observation(&tools, &["search".to_owned()]).ends_with(&roster_footer(
            &tools,
            &["search".to_owned()]
        ))
    );
}

#[test]
fn dispatch_failures_are_told_apart() {
    let failed = |reason: &str| ToolResult::Failed {
        tool: "search".to_owned(),
        reason: reason.to_owned(),
    };
    assert!(is_dispatch_failure(&failed("unknown tool 'x'")));
    assert!(is_dispatch_failure(&failed("invalid args for 'search': x")));
    assert!(!is_dispatch_failure(&failed("boom")));
    assert!(!is_dispatch_failure(&canned_search()));
}

#[test]
fn run_messages_are_the_assembled_transcript() {
    let tools = ToolRegistry::live();
    let started = LoopRun::start(
        &tools,
        loop_input(&["search", "fetch"]),
        LoopBudget::default(),
    )
    .expect("run starts");
    let prompt = build_system_prompt(&tools.tool_purposes(), SynthesisSize::Medium);
    let no_history: Vec<HistoryEntry> = vec![];
    let expected = assemble(
        &prompt,
        &loop_input(&["search", "fetch"]),
        &no_history,
        &LoopBudget::default(),
    );
    let messages = started.messages();
    assert_eq!(messages.len(), expected.len());
    for (a, b) in messages.iter().zip(&expected) {
        assert_eq!(a.role, b.role);
        assert_eq!(a.content, b.content);
    }
}

#[test]
fn blank_answers_abort_after_repairs() {
    let blank = || ok(text_body("  \n"));
    let err = run(
        vec![blank(), blank(), blank()],
        stub_tools(vec![]),
        &["search"],
        LoopBudget::default(),
    )
    .expect_err("blank answers must not go on forever");
    match err {
        LoopError::InvalidToolCall { reason } => assert_eq!(reason, "empty answer"),
        other => panic!("expected InvalidToolCall, got {other:?}"),
    }
}

#[test]
fn the_last_turn_without_an_answer_exhausts_the_budget() {
    let err = run(
        vec![ok(text_body(""))],
        stub_tools(vec![]),
        &["search"],
        LoopBudget {
            max_turns: 1,
            ..LoopBudget::default()
        },
    )
    .expect_err("no answer within the budget");
    assert!(matches!(err, LoopError::BudgetExhausted { turns: 1 }));
}

#[test]
fn tokens_are_summed_up_to_the_largest_number() {
    let spent = |tokens: u64, mut body: ChatResponse| {
        body.usage = Some(ResponseUsage {
            prompt_tokens: tokens,
            completion_tokens: 2,
            total_tokens: 3,
            completion_tokens_details: None,
        });
        ok(body)
    };
    let search = || {
        tools_body(
            vec![tool_call("c", "search", r#"{"query": "obscura"}"#)],
            "",
        )
    };
    let report = run(
        vec![
            spent(u64::MAX - 1, search()),
            spent(5, search()),
            spent(7, text_body(&final_answer())),
        ],
        stub_tools(vec![canned_search(), canned_search()]),
        &["search"],
        LoopBudget::default(),
    )
    .expect("the run ends in an answer");
    assert_eq!(report.turns_used, 3);
    assert_eq!(report.usage.prompt_tokens, u64::MAX);
    assert_eq!(report.usage.completion_tokens, 6);
    assert_eq!(report.usage.total_tokens, 9);
    assert_eq!(report.usage.reasoning_tokens, 0);
    assert_eq!(report.clone().evidence.len(), 2);
}

#[test]
fn tools_that_are_not_allowed_are_never_run() {
    let tools = stub_tools(vec![canned_fetch()]);
    let started = LoopRun::start(&tools, loop_input(&["search"]), LoopBudget::default())
        .expect("run starts");
    let asked = tools_body(
        vec![tool_call("c", "fetch", r#"{"url": "https://example.com/t"}"#)],
        "",
    );
    match started.on_reply(&tools, read_turn(&asked, true)) {
        LoopStep::Dispatch(_, mut turn, _) => {
            assert!(turn.next_call().is_none());
            assert!(turn.next_call().is_none());
            let outcome = turn.finish(&tools);
            assert_eq!(
                outcome.failure_reason,
                "unknown tool 'fetch' (available: search)"
            );
            assert!(outcome.evidence.is_empty());
        }
        other => panic!("a reply with calls is dispatched, got {other:?}"),
    }
}
