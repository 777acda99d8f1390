//! The gateway: configuration, replies, failures and retries.

use serde_json::Value;
use web_agent_research::json::Json;
use web_agent_research::shared::gateway::client::{
    after_attempt, backoff_delay, map_send_error, map_status, parse_retry_after, plan_turn,
    RetryStep,
};
use web_agent_research::shared::gateway::config::{GatewayEnv, ModelParams};
use web_agent_research::shared::gateway::reply::{
    parse_reply, parse_tool_reply, read_turn, ChatRequest, ChatResponse, Choice, CompletionDetails,
    ReasoningDetail, ResponseMessage, ResponseUsage, ToolCall, ToolFunction,
};
use web_agent_research::shared::gateway::{
    ChatMessage, GatewayConfig, GatewayError, LlmReply, ToolChoice, ToolDef,
};
use web_agent_research::time::Duration;

fn text(value: &Value) -> Option<String> {
    value.as_str().map(str::to_owned)
}

fn items(value: &Value) -> Vec<Value> {
    value.as_array().cloned().unwrap_or_default()
}

fn response(fixture: &str) -> ChatResponse {
    let value: Value = serde_json::from_str(fixture).expect("fixture must deserialize");
    let usage = &value["usage"];
    ChatResponse {
        choices: items(&value["choices"])
            .iter()
            .map(|choice| {
                let message = &choice["message"];
                Choice {
                    message: ResponseMessage {
                        content: text(&message["content"]),
                        refusal: text(&message["refusal"]),
                        reasoning_content: text(&message["reasoning_content"]),
                        reasoning: text(&message["reasoning"]),
                        reasoning_details: items(&message["reasoning_details"])
                            .iter()
                            .map(|detail| ReasoningDetail {
                                text: text(&detail["text"]),
                            })
                            .collect(),
                        tool_calls: items(&message["tool_calls"])
                            .iter()
                            .map(|call| ToolCall {
                                id: text(&call["id"]),
                                function: call.get("function").map(|function| ToolFunction {
                                    name: text(&function["name"]),
                                    arguments: text(&function["arguments"]),
                                }),
                            })
                            .collect(),
                    },
                    finish_reason: text(&choice["finish_reason"]),
                }
            })
            .collect(),
        usage: usage.as_object().map(|_| ResponseUsage {
            prompt_tokens: usage["prompt_tokens"].as_u64().unwrap_or(0),
            completion_tokens: usage["completion_tokens"].as_u64().unwrap_or(0),
            total_tokens: usage["total_tokens"].as_u64().unwrap_or(0),
            completion_tokens_details: usage["completion_tokens_details"].as_object().map(
                |details| CompletionDetails {
                    reasoning_tokens: details["reasoning_tokens"].as_u64().unwrap_or(0),
                },
            ),
        }),
    }
}

fn parse(fixture: &str) -> Result<LlmReply, GatewayError> {
    parse_reply(&response(fixture))
}

fn config() -> GatewayConfig {
    GatewayConfig::new(
        "http://localhost:8317/v1".to_owned(),
        "key".to_owned(),
        "m".to_owned(),
    )
}

fn messages() -> Vec<ChatMessage> {
    vec![ChatMessage {
        role: "user".to_owned(),
        content: "Reply with exactly: gateway ok".to_owned(),
    }]
}

fn get_time_tools() -> Vec<ToolDef> {
    vec![ToolDef {
        name: "get_time".to_owned(),
        description: "Returns the current time.".to_owned(),
        parameters: Json::object()
            .with("type", Json::text("object"))
            .with("properties", Json::object()),
    }]
}

fn no_env() -> GatewayEnv {
    GatewayEnv {
        api_key: None,
        base_url: None,
        model: None,
        reasoning_effort: None,
        max_tokens: None,
        timeout_secs: None,
        max_attempts: None,
    }
}

const SUCCESS_BODY: &str =
    r#"{"choices": [{"message": {"role": "assistant", "content": "gateway ok"}}]}"#;

const TOOL_CALL_BODY: &str = r#"{
    "choices": [{
        "message": {
            "role": "assistant",
            "content": "",
            "reasoning_content": "calling get_time",
            "tool_calls": [{
                "id": "chatcmpl-tool-abc123",
                "type": "function",
                "function": {"name": "get_time", "arguments": "{}"}
            }]
        },
        "finish_reason": "tool_calls"
    }],
    "usage": {"prompt_tokens": 5, "completion_tokens": 3, "total_tokens": 8}
}"#;

#[test]
fn per_model_beats_default() {
    let cfg = GatewayConfig::new(
        "http://localhost:8317/v1".to_owned(),
        "key".to_owned(),
        "glm-5p2".to_owned(),
    )
    .with_model_override(
        "glm-5p2",
        ModelParams {
            reasoning_effort: Some("high".to_owned()),
            max_tokens: Some(4096),
        },
    );
    let mut cfg = cfg;
    cfg.default_reasoning_effort = Some("low".to_owned());

    let hit = cfg.effective_params("glm-5p2");
    assert_eq!(hit.model, "glm-5p2");
    assert_eq!(hit.reasoning_effort.as_deref(), Some("high"));
    assert_eq!(hit.max_tokens, Some(4096));

    let miss = cfg.effective_params("other");
    assert_eq!(miss.model, "other");
    assert_eq!(miss.reasoning_effort.as_deref(), Some("low"));
    assert_eq!(miss.max_tokens, None);
}

#[test]
fn unset_means_omitted() {
    let cfg = config();
    let params = cfg.effective_params("m");
    assert_eq!(params.reasoning_effort, None);
    assert_eq!(params.max_tokens, None);

    let body = ChatRequest::from_resolved(&params, vec![]).to_json();
    assert!(
        body.get("reasoning_effort").is_none(),
        "unset reasoning_effort must be omitted, got {body:?}"
    );
    assert!(
        body.get("max_completion_tokens").is_none(),
        "unset max_completion_tokens must be omitted, got {body:?}"
    );
    assert!(body.get("tools").is_none());
    assert!(body.get("tool_choice").is_none());
}

#[test]
fn base_url_trims_one_trailing_slash() {
    let cfg = GatewayConfig::new(
        "http://localhost:8317/v1/".to_owned(),
        "key".to_owned(),
        "m".to_owned(),
    );
    assert_eq!(cfg.base_url, "http://localhost:8317/v1");
}

#[test]
fn shape_a_reasoning_content() {
    let reply = parse(
        r#"{
            "choices": [{
                "message": {
                    "role": "assistant",
                    "content": "done",
                    "reasoning_content": "plan the search first",
                    "reasoning_details": null
                },
                "finish_reason": "stop"
            }],
            "usage": {"prompt_tokens": 10, "completion_tokens": 5, "total_tokens": 15}
        }"#,
    )
    .expect("shape (a) must parse");
    assert_eq!(reply.thinking, "plan the search first");
    assert_eq!(reply.output, "done");
    assert_eq!(reply.finish_reason.as_deref(), Some("stop"));
}

#[test]
fn shape_b_reasoning_blocks() {
    let reply = parse(
        r#"{
            "choices": [{
                "message": {
                    "role": "assistant",
                    "content": "answer",
                    "reasoning": "scalar thought",
                    "reasoning_details": [
                        {"type": "reasoning.text", "text": "block one"},
                        {"type": "reasoning.text", "text": "block two"}
                    ]
                },
                "finish_reason": "stop"
            }]
        }"#,
    )
    .expect("shape (b) must parse");
    assert_eq!(reply.thinking, "scalar thought\nblock one\nblock two");
    assert_eq!(reply.output, "answer");
}

#[test]
fn both_shapes_concatenate() {
    let reply = parse(
        r#"{
            "choices": [{
                "message": {
                    "role": "assistant",
                    "content": "answer",
                    "reasoning_content": "a-think",
                    "reasoning": "b-think",
                    "reasoning_details": [
                        {"type": "reasoning.text", "text": "d1"},
                        {"type": "reasoning.text", "text": ""}
                    ]
                },
                "finish_reason": "stop"
            }]
        }"#,
    )
    .expect("both shapes must parse");
    assert_eq!(reply.thinking, "a-think\nb-think\nd1");
}

#[test]
fn null_content_is_empty_output() {
    let reply = parse(
        r#"{
            "choices": [{
                "message": {"role": "assistant", "content": null},
                "finish_reason": "stop"
            }]
        }"#,
    )
    .expect("null content must parse");
    assert_eq!(reply.output, "");
    assert_eq!(reply.finish_reason.as_deref(), Some("stop"));
}

#[test]
fn refusal_wins() {
    let err = parse(
        r#"{
            "choices": [{
                "message": {
                    "role": "assistant",
                    "content": "partial",
                    "refusal": "I cannot help with that"
                },
                "finish_reason": "stop"
            }]
        }"#,
    )
    .expect_err("refusal must be an error");
    assert!(matches!(err, GatewayError::Refused(text) if text == "I cannot help with that"));
}

#[test]
fn tool_calls_denied() {
    let err = parse(
        r#"{
            "choices": [{
                "message": {
                    "role": "assistant",
                    "content": "answer",
                    "tool_calls": [{
                        "id": "call_1",
                        "type": "function",
                        "function": {"name": "search", "arguments": "{}"}
                    }]
                },
                "finish_reason": "tool_calls"
            }]
        }"#,
    )
    .expect_err("tool calls must be denied");
    assert!(matches!(err, GatewayError::ToolCallsUnsupported));
}

#[test]
fn empty_choices() {
    let err = parse(r#"{"choices": [], "usage": null}"#).expect_err("empty choices must fail");
    assert!(matches!(err, GatewayError::EmptyChoices));
}

#[test]
fn usage_nesting() {
    let reply = parse(
        r#"{
            "choices": [{
                "message": {"role": "assistant", "content": "answer"},
                "finish_reason": "stop"
            }],
            "usage": {
                "prompt_tokens": 7,
                "completion_tokens": 11,
                "total_tokens": 18,
                "completion_tokens_details": {"reasoning_tokens": 42}
            }
        }"#,
    )
    .expect("usage must parse");
    assert_eq!(reply.usage.prompt_tokens, 7);
    assert_eq!(reply.usage.completion_tokens, 11);
    assert_eq!(reply.usage.total_tokens, 18);
    assert_eq!(reply.usage.reasoning_tokens, 42);

    let bare = parse(r#"{"choices": [{"message": {"role": "assistant", "content": "x"}}]}"#)
        .expect("absent usage must parse");
    assert_eq!(bare.usage.prompt_tokens, 0);
    assert_eq!(bare.usage.completion_tokens, 0);
    assert_eq!(bare.usage.total_tokens, 0);
    assert_eq!(bare.usage.reasoning_tokens, 0);
}

#[test]
fn backoff_shape() {
    assert_eq!(backoff_delay(1, None), Duration::from_secs(1));
    assert_eq!(backoff_delay(2, None), Duration::from_secs(2));
    assert_eq!(backoff_delay(2, Some(30)), Duration::from_secs(30));
    assert_eq!(backoff_delay(9, None), Duration::from_secs(8));
    assert_eq!(backoff_delay(1, Some(3600)), Duration::from_secs(60));
}

#[test]
fn status_mapping() {
    let auth = map_status(401, &None).expect("401 is an error");
    assert!(matches!(auth, GatewayError::Auth) && !auth.is_retryable());
    let forbidden = map_status(403, &None).expect("403 is an error");
    assert!(matches!(forbidden, GatewayError::Auth));
    let limited = map_status(429, &Some("7".to_owned())).expect("429 is an error");
    assert!(
        matches!(
            limited,
            GatewayError::RateLimited {
                retry_after_secs: Some(7)
            }
        ) && limited.is_retryable()
    );
    let server = map_status(500, &None).expect("500 is an error");
    assert!(matches!(server, GatewayError::Server { status: 500 }) && server.is_retryable());
    let client = map_status(404, &None).expect("404 is an error");
    assert!(matches!(client, GatewayError::Client { status: 404 }) && !client.is_retryable());
    assert!(map_status(200, &None).is_none());
}

#[test]
fn timeout_maps_and_retries() {
    let err = map_send_error(true, "operation timed out".to_owned());
    assert!(matches!(err, GatewayError::Timeout) && err.is_retryable());
    let other = map_send_error(false, "connection refused".to_owned());
    assert!(other.is_retryable());
    assert_eq!(
        other.to_string(),
        "gateway transport error: connection refused"
    );
}

#[test]
fn retry_then_success() {
    let first = map_status(429, &None).expect("429 is an error");
    let attempt = match after_attempt(1, 3, Err(first)) {
        RetryStep::Again(pause, attempt) => {
            assert_eq!(pause, Duration::from_secs(1));
            attempt
        }
        other => panic!("429 must be retried, got {other:?}"),
    };
    assert_eq!(attempt, 2);
    match after_attempt(attempt, 3, parse(SUCCESS_BODY)) {
        RetryStep::Done(Ok(reply)) => assert_eq!(reply.output, "gateway ok"),
        other => panic!("second attempt must succeed, got {other:?}"),
    }
}

#[test]
fn retries_end_with_the_attempts() {
    let limited = || Err(map_status(429, &Some("2".to_owned())).expect("429 is an error"));
    match after_attempt(2, 3, limited()) {
        RetryStep::Again(pause, 3) => assert_eq!(pause, Duration::from_secs(2)),
        other => panic!("expected a third attempt, got {other:?}"),
    }
    match after_attempt(3, 3, limited()) {
        RetryStep::Done(Err(GatewayError::RateLimited { .. })) => {}
        other => panic!("the last failure must stand, got {other:?}"),
    }
}

#[test]
fn no_retry_on_auth() {
    let auth = map_status(401, &None).expect("401 is an error");
    match after_attempt(1, 3, Err(auth)) {
        RetryStep::Done(Err(GatewayError::Auth)) => {}
        other => panic!("401 must not be retried, got {other:?}"),
    }
}

#[test]
fn chat_with_tools_returns_tool_calls() {
    let reply = parse_tool_reply(&response(TOOL_CALL_BODY)).expect("tool_calls body must parse");
    assert_eq!(reply.tool_calls.len(), 1);
    assert_eq!(reply.tool_calls[0].id, "chatcmpl-tool-abc123");
    assert_eq!(reply.tool_calls[0].name, "get_time");
    let arguments = reply.tool_calls[0]
        .parsed_arguments()
        .expect("arguments must parse");
    assert_eq!(arguments.value.compact, "{}");
    assert!(arguments.fields.is_empty());
    assert_eq!(reply.thinking, "calling get_time");
}

#[test]
fn missing_key_never_touches_io() {
    let bare = GatewayConfig::new(
        "http://127.0.0.1:1".to_owned(),
        String::new(),
        "m".to_owned(),
    );
    let err = plan_turn(&bare, messages(), None, None).expect_err("empty key must fail pre-flight");
    assert!(matches!(err, GatewayError::MissingApiKey));
}

#[test]
fn planned_turns_carry_endpoint_body_and_attempts() {
    let planned = plan_turn(
        &config().with_max_attempts(5),
        messages(),
        Some(get_time_tools()),
        Some(ToolChoice::Auto),
    )
    .expect("turn is planned");
    assert_eq!(planned.url, "http://localhost:8317/v1/chat/completions");
    assert_eq!(planned.attempts, 5);
    assert_eq!(planned.body.get("model").and_then(Json::as_str), Some("m"));
    let sent = planned
        .body
        .get("messages")
        .and_then(Json::as_array)
        .expect("messages");
    assert_eq!(sent.len(), 1);
    assert_eq!(sent[0].get("role").and_then(Json::as_str), Some("user"));
}

#[test]
fn retry_after_reads_whole_seconds() {
    assert_eq!(parse_retry_after(&Some(" 12 ".to_owned())), Some(12));
    assert_eq!(parse_retry_after(&Some("soon".to_owned())), None);
    assert_eq!(parse_retry_after(&Some("-1".to_owned())), None);
    assert_eq!(parse_retry_after(&None), None);
}

#[test]
fn pauses_stay_bounded() {
    for attempt in [0, 1, 2, 3, 4, 5, 31, 32, 33, 64, u32::MAX] {
        let pause = backoff_delay(attempt, None).as_secs();
        assert!((1..=8).contains(&pause), "attempt {attempt}: {pause}");
        assert_eq!(backoff_delay(attempt, Some(u64::MAX)).as_secs(), 60);
    }
}

#[test]
fn environment_gives_the_configuration() {
    let env = GatewayEnv {
        api_key: Some(" secret ".to_owned()),
        base_url: Some("http://host/v1/".to_owned()),
        model: None,
        reasoning_effort: Some("high".to_owned()),
        max_tokens: Some("100".to_owned()),
        timeout_secs: Some("5".to_owned()),
        max_attempts: Some("2".to_owned()),
    };
    let cfg = GatewayConfig::from_env(&env).expect("environment is complete");
    assert_eq!(cfg.api_key(), "secret");
    assert_eq!(cfg.base_url, "http://host/v1");
    assert_eq!(cfg.model, "glm-5p2");
    assert_eq!(cfg.default_reasoning_effort.as_deref(), Some("high"));
    assert_eq!(cfg.default_max_tokens, Some(100));
    assert_eq!(cfg.request_timeout, Duration::from_secs(5));
    assert_eq!(cfg.attempts(), 2);
}

#[test]
fn environment_errors_are_told() {
    let missing = GatewayConfig::from_env(&no_env()).err();
    assert!(missing.expect("no key").contains("GATEWAY_API_KEY"));
    let mut bad = no_env();
    bad.api_key = Some("k".to_owned());
    bad.max_tokens = Some("a\"b".to_owned());
    let told = GatewayConfig::from_env(&bad).err().expect("bad number");
    assert!(told.contains("GATEWAY_MAX_TOKENS"), "got {told}");
    assert!(told.contains(r#""a\"b""#), "got {told}");
}

#[test]
fn gateway_failures_in_words() {
    assert_eq!(
        GatewayError::RateLimited {
            retry_after_secs: Some(3),
        }
        .to_string(),
        "gateway rate-limited, retry after 3s"
    );
    assert_eq!(
        GatewayError::Server { status: 502 }.to_string(),
        "gateway server error (HTTP 502)"
    );
    assert_eq!(
        GatewayError::Parse("eof".to_owned()).to_string(),
        "gateway response parse error: eof"
    );
    assert_eq!(
        GatewayError::MissingApiKey.to_string(),
        "GATEWAY_API_KEY is not set"
    );
    assert_eq!(
        GatewayError::Refused("no".to_owned()).to_string(),
        "model refused the turn: no"
    );
    assert!(!GatewayError::EmptyChoices.is_retryable());
    assert!(!GatewayError::ToolCallsUnsupported.is_retryable());
}

#[test]
fn overrides_replace_earlier_ones() {
    let params = |effort: &str| ModelParams {
        reasoning_effort: Some(effort.to_owned()),
        max_tokens: None,
    };
    let cfg = config()
        .with_model_override("m", params("low"))
        .with_model_override("m", params("high"));
    assert_eq!(
        cfg.model_params().reasoning_effort.as_deref(),
        Some("high")
    );
}

#[test]
fn described_configuration_hides_its_key() {
    let described = |key: &str| {
        let mut env = no_env();
        env.api_key = Some(key.to_owned());
        env.base_url = Some("http://host".to_owned());
        env.model = Some("m".to_owned());
        env.max_tokens = Some("7".to_owned());
        env.timeout_secs = Some("5".to_owned());
        env.max_attempts = Some("2".to_owned());
        let params = |tokens: u32| ModelParams {
            reasoning_effort: Some("low".to_owned()),
            max_tokens: Some(tokens),
        };
        GatewayConfig::from_env(&env)
            .expect("environment is complete")
            .with_model_override("x", params(1))
            .with_model_override("x", params(2))
            .describe()
    };
    let shown = described("hidden-key");
    assert_eq!(
        shown,
        [
            r#"GatewayConfig { base_url: "http://host", api_key: "<redacted>", model: "m", "#,
            r#"default_reasoning_effort: None, default_max_tokens: Some(7), "#,
            r#"model_overrides: {"x": ModelParams { reasoning_effort: Some("low"), "#,
            r#"max_tokens: Some(2) }}, request_timeout: 5s, max_attempts: 2 }"#,
        ]
        .concat()
    );
    assert_eq!(shown, described("another-key"));
}

#[test]
fn turns_without_tools_deny_calls() {
    let body = response(TOOL_CALL_BODY);
    assert!(read_turn(&body, true).is_ok());
    assert!(matches!(
        read_turn(&body, false),
        Err(GatewayError::ToolCallsUnsupported)
    ));
}

#[test]
fn copied_configurations_say_the_same() {
    let params = ModelParams {
        reasoning_effort: Some("low".to_owned()),
        max_tokens: Some(9),
    };
    let cfg = config().with_model_override("m", params);
    let copy = cfg.clone();
    assert_eq!(copy.api_key(), cfg.api_key());
    assert_eq!(copy.base_url, cfg.base_url);
    assert_eq!(copy.describe(), cfg.describe());
    assert_eq!(copy.effective_params("m").clone().max_tokens, Some(9));
}
