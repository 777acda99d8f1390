//! One gateway turn: failures, status mapping and retries.
//!
//! A turn is a state machine: the caller sends the request, hands the outcome
//! of the attempt in, and sleeps or ends as it is told.

use vstd::prelude::*;
use crate::json::Json;
use crate::shared::gateway::config::GatewayConfig;
use crate::shared::gateway::reply::{ChatMessage, ChatRequest, LlmReply, ToolChoice, ToolDef};
use crate::text::{decimal_text, parsed_number, trimmed};
use crate::time::Duration;
#[allow(unused_imports)]
use crate::json::JsonView;
#[allow(unused_imports)]
use crate::shared::gateway::config::ConfigView;
#[allow(unused_imports)]
use crate::shared::gateway::reply::{tools_view, turn_view, ChatRequestView, MessageView, ReplyView,
    ToolDefView};
#[allow(unused_imports)]
use crate::text::{decimal, number_value, opt_view, trim, views};
#[allow(unused_imports)]
use crate::time::seconds;

verus! {

/// Failure of one gateway turn. The retryable ones are tried again up to the
/// configured number of attempts; the caller sees only the last.
#[derive(Debug)]
pub enum GatewayError {
    /// No key is configured; nothing was sent.
    MissingApiKey,
    /// 401 or 403: the key is bad. Not retryable.
    Auth,
    /// 429. Retryable after a pause.
    RateLimited { retry_after_secs: Option<u64> },
    /// 5xx. Retryable.
    Server { status: u16 },
    /// Another 4xx. Not retryable.
    Client { status: u16 },
    /// The time limit of an attempt. Retryable.
    Timeout,
    /// Connection, name or encryption failure. Retryable.
    Transport(String),
    /// The body of a success could not be read. Not retryable.
    Parse(String),
    /// A success without choices. Not retryable.
    EmptyChoices,
    /// The model refused. Not retryable.
    Refused(String),
    /// The model asked for tools in a turn that offered none. Not retryable.
    ToolCallsUnsupported,
}

/// What a gateway failure says.
#[verifier::ext_equal]
pub enum GatewayFailure {
    MissingApiKey,
    Auth,
    RateLimited { retry_after_secs: Option<u64> },
    Server { status: u16 },
    Client { status: u16 },
    Timeout,
    Transport(Seq<char>),
    Parse(Seq<char>),
    EmptyChoices,
    Refused(Seq<char>),
    ToolCallsUnsupported,
}

impl View for GatewayError {
    type V = GatewayFailure;

    open spec fn view(&self) -> GatewayFailure {
        match *self {
            GatewayError::MissingApiKey => GatewayFailure::MissingApiKey,
            GatewayError::Auth => GatewayFailure::Auth,
            GatewayError::RateLimited { retry_after_secs } => GatewayFailure::RateLimited {
                retry_after_secs,
            },
            GatewayError::Server { status } => GatewayFailure::Server { status },
            GatewayError::Client { status } => GatewayFailure::Client { status },
            GatewayError::Timeout => GatewayFailure::Timeout,
            GatewayError::Transport(detail) => GatewayFailure::Transport(detail@),
            GatewayError::Parse(detail) => GatewayFailure::Parse(detail@),
            GatewayError::EmptyChoices => GatewayFailure::EmptyChoices,
            GatewayError::Refused(text) => GatewayFailure::Refused(text@),
            GatewayError::ToolCallsUnsupported => GatewayFailure::ToolCallsUnsupported,
        }
    }
}

impl GatewayFailure {
    /// Whether another attempt may help.
    pub open spec fn retryable(self) -> bool {
        self is RateLimited || self is Server || self is Timeout || self is Transport
    }

    /// The failure in words.
    pub open spec fn message(self) -> Seq<char> {
        match self {
            GatewayFailure::MissingApiKey => "GATEWAY_API_KEY is not set"@,
            GatewayFailure::Auth => "gateway auth failed (bad API key)"@,
            GatewayFailure::RateLimited { retry_after_secs } => match retry_after_secs {
                Some(secs) => "gateway rate-limited, retry after "@ + decimal(secs as nat) + "s"@,
                None => "gateway rate-limited"@,
            },
            GatewayFailure::Server { status } => "gateway server error (HTTP "@ + decimal(
                status as nat,
            ) + ")"@,
            GatewayFailure::Client { status } => "gateway client error (HTTP "@ + decimal(
                status as nat,
            ) + ")"@,
            GatewayFailure::Timeout => "gateway request timed out"@,
            GatewayFailure::Transport(detail) => "gateway transport error: "@ + detail,
            GatewayFailure::Parse(detail) => "gateway response parse error: "@ + detail,
            GatewayFailure::EmptyChoices => "gateway returned no choices"@,
            GatewayFailure::Refused(text) => "model refused the turn: "@ + text,
            GatewayFailure::ToolCallsUnsupported =>
                "model requested tool calls, but the turn offered no tools"@,
        }
    }
}

fn with_number(head: &str, n: u64, tail: &str) -> (r: String)
    ensures
        r@ == head@ + decimal(n as nat) + tail@,
{
    let mut text = head.to_owned();
    let shown = decimal_text(n);
    text.append(shown.as_str());
    text.append(tail);
    text
}

fn with_detail(head: &str, detail: &str) -> (r: String)
    ensures
        r@ == head@ + detail@,
{
    let mut text = head.to_owned();
    text.append(detail);
    text
}

impl GatewayError {
    /// Whether another attempt may help.
    pub fn is_retryable(&self) -> (r: bool)
        ensures
            r == self@.retryable(),
    {
        match self {
            GatewayError::RateLimited { .. } => true,
            GatewayError::Server { .. } => true,
            GatewayError::Timeout => true,
            GatewayError::Transport(_) => true,
            _ => false,
        }
    }

    /// The failure in words.
    pub fn to_string(&self) -> (r: String)
        ensures
            r@ == self@.message(),
    {
        match self {
            GatewayError::MissingApiKey => "GATEWAY_API_KEY is not set".to_owned(),
            GatewayError::Auth => "gateway auth failed (bad API key)".to_owned(),
            GatewayError::RateLimited { retry_after_secs } => match retry_after_secs {
                Some(secs) => with_number("gateway rate-limited, retry after ", *secs, "s"),
                None => "gateway rate-limited".to_owned(),
            },
            GatewayError::Server { status } => with_number(
                "gateway server error (HTTP ",
                *status as u64,
                ")",
            ),
            GatewayError::Client { status } => with_number(
                "gateway client error (HTTP ",
                *status as u64,
                ")",
            ),
            GatewayError::Timeout => "gateway request timed out".to_owned(),
            GatewayError::Transport(detail) => with_detail(
                "gateway transport error: ",
                detail.as_str(),
            ),
            GatewayError::Parse(detail) => with_detail(
                "gateway response parse error: ",
                detail.as_str(),
            ),
            GatewayError::EmptyChoices => "gateway returned no choices".to_owned(),
            GatewayError::Refused(text) => with_detail("model refused the turn: ", text.as_str()),
            GatewayError::ToolCallsUnsupported =>
                "model requested tool calls, but the turn offered no tools".to_owned(),
        }
    }
}

/// The longest pause that a `Retry-After` header gets, in seconds.
pub const MAX_RETRY_AFTER_SECS: u64 = 60;

/// The pause after a failed attempt, in seconds: what the response asks for,
/// up to a minute, else 1, 2, 4 and then always 8.
pub open spec fn pause_secs(attempt: u32, retry_after_secs: Option<u64>) -> nat {
    match retry_after_secs {
        Some(secs) => if secs > MAX_RETRY_AFTER_SECS {
            MAX_RETRY_AFTER_SECS as nat
        } else {
            secs as nat
        },
        None => if attempt <= 1 {
            1
        } else if attempt == 2 {
            2
        } else if attempt == 3 {
            4
        } else {
            8
        },
    }
}

/// The pause after a failed attempt: it doubles from one second up to eight.
/// What the response asks for comes first, up to a minute, so that one header
/// cannot stall a turn.
pub fn backoff_delay(attempt: u32, retry_after_secs: Option<u64>) -> (r: Duration)
    ensures
        r@ == seconds(pause_secs(attempt, retry_after_secs)),
{
    match retry_after_secs {
        Some(secs) => if secs > MAX_RETRY_AFTER_SECS {
            Duration::from_secs(MAX_RETRY_AFTER_SECS)
        } else {
            Duration::from_secs(secs)
        },
        None => if attempt <= 1 {
            Duration::from_secs(1)
        } else if attempt == 2 {
            Duration::from_secs(2)
        } else if attempt == 3 {
            Duration::from_secs(4)
        } else {
            Duration::from_secs(8)
        },
    }
}

/// The seconds that a `Retry-After` header asks for, if it is a number.
pub open spec fn asked_pause(header: Option<Seq<char>>) -> Option<u64> {
    match header {
        Some(text) => match number_value(trim(text), 10, u64::MAX as nat) {
            Some(n) => Some(n as u64),
            None => None,
        },
        None => None,
    }
}

/// Reads a `Retry-After` header.
pub fn parse_retry_after(header: &Option<String>) -> (r: Option<u64>)
    ensures
        r == asked_pause(opt_view(*header)),
{
    match header {
        Some(text) => parsed_number(trimmed(text.as_str()).as_str(), u64::MAX),
        None => None,
    }
}

/// The failure that a status means; none for one outside 4xx and 5xx.
pub open spec fn status_failure(status: u16, retry_after: Option<Seq<char>>) -> Option<
    GatewayFailure,
> {
    if status == 401 || status == 403 {
        Some(GatewayFailure::Auth)
    } else if status == 429 {
        Some(GatewayFailure::RateLimited { retry_after_secs: asked_pause(retry_after) })
    } else if 500 <= status < 600 {
        Some(GatewayFailure::Server { status })
    } else if 400 <= status < 500 {
        Some(GatewayFailure::Client { status })
    } else {
        None
    }
}

/// The failure that a status means, with the `Retry-After` header of the
/// response.
pub fn map_status(status: u16, retry_after: &Option<String>) -> (r: Option<GatewayError>)
    ensures
        opt_view(r) == status_failure(status, opt_view(*retry_after)),
{
    if status == 401 || status == 403 {
        Some(GatewayError::Auth)
    } else if status == 429 {
        Some(GatewayError::RateLimited { retry_after_secs: parse_retry_after(retry_after) })
    } else if 500 <= status && status < 600 {
        Some(GatewayError::Server { status })
    } else if 400 <= status && status < 500 {
        Some(GatewayError::Client { status })
    } else {
        None
    }
}

/// The failure of a request that got no response.
pub fn map_send_error(is_timeout: bool, detail: String) -> (r: GatewayError)
    ensures
        r@ == if is_timeout {
            GatewayFailure::Timeout
        } else {
            GatewayFailure::Transport(detail@)
        },
{
    if is_timeout {
        GatewayError::Timeout
    } else {
        GatewayError::Transport(detail)
    }
}

/// What a turn does after an attempt: pause and try again, or end.
#[derive(Debug)]
pub enum RetryStep {
    /// Try again after this pause, as this attempt.
    Again(Duration, u32),
    Done(Result<LlmReply, GatewayError>),
}

/// What a retry step says.
#[verifier::ext_equal]
pub enum RetryStepView {
    Again(nat, u32),
    Done(Result<ReplyView, GatewayFailure>),
}

impl View for RetryStep {
    type V = RetryStepView;

    open spec fn view(&self) -> RetryStepView {
        match *self {
            RetryStep::Again(pause, attempt) => RetryStepView::Again(pause@, attempt),
            RetryStep::Done(outcome) => RetryStepView::Done(turn_view(outcome)),
        }
    }
}

/// What a turn does after attempt `attempt` of `attempts`: a success and a
/// failure that is not retryable end it, and so does the last attempt.
pub open spec fn after_attempt_spec(
    attempt: u32,
    attempts: u32,
    outcome: Result<ReplyView, GatewayFailure>,
) -> RetryStepView {
    match outcome {
        Ok(reply) => RetryStepView::Done(Ok(reply)),
        Err(e) => if !e.retryable() || attempt >= attempts {
            RetryStepView::Done(Err(e))
        } else {
            RetryStepView::Again(
                seconds(
                    pause_secs(
                        attempt,
                        match e {
                            GatewayFailure::RateLimited { retry_after_secs } => retry_after_secs,
                            _ => None,
                        },
                    ),
                ),
                (attempt + 1) as u32,
            )
        },
    }
}

/// Goes on after an attempt.
pub fn after_attempt(attempt: u32, attempts: u32, outcome: Result<LlmReply, GatewayError>) -> (r:
    RetryStep)
    ensures
        r@ == after_attempt_spec(attempt, attempts, turn_view(outcome)),
{
    match outcome {
        Ok(reply) => RetryStep::Done(Ok(reply)),
        Err(e) => {
            if !e.is_retryable() || attempt >= attempts {
                return RetryStep::Done(Err(e));
            }
            let asked = match &e {
                GatewayError::RateLimited { retry_after_secs } => *retry_after_secs,
                _ => None,
            };
            RetryStep::Again(backoff_delay(attempt, asked), attempt + 1)
        },
    }
}

/// The pause is never longer than a minute, and never longer than eight
/// seconds where the response asks for none; it never shrinks from one
/// attempt to the next.
pub proof fn law_pauses_are_bounded(attempt: u32, retry_after_secs: Option<u64>)
    ensures
        pause_secs(attempt, retry_after_secs) <= 60,
        retry_after_secs is None ==> 1 <= pause_secs(attempt, None) <= 8,
        attempt < u32::MAX ==> pause_secs(attempt, None) <= pause_secs(
            (attempt + 1) as u32,
            None,
        ),
{
}

/// The outcome of a whole turn, given what each attempt from `attempt` on
/// would come to.
pub open spec fn turn_outcome(
    attempt: u32,
    attempts: u32,
    outcomes: spec_fn(u32) -> Result<ReplyView, GatewayFailure>,
) -> (Result<ReplyView, GatewayFailure>, u32)
    decreases attempts - attempt,
{
    match after_attempt_spec(attempt, attempts, outcomes(attempt)) {
        RetryStepView::Done(outcome) => (outcome, attempt),
        RetryStepView::Again(_, next) => if attempt < attempts {
            turn_outcome(next, attempts, outcomes)
        } else {
            (outcomes(attempt), attempt)
        },
    }
}

/// A turn makes at most the configured number of attempts. It makes another
/// only after a retryable failure, and returns the outcome of the last one.
pub proof fn law_turn_stops_at_first_decisive_attempt(
    attempt: u32,
    attempts: u32,
    outcomes: spec_fn(u32) -> Result<ReplyView, GatewayFailure>,
)
    requires
        attempt <= attempts,
    ensures
        ({
            let (outcome, last) = turn_outcome(attempt, attempts, outcomes);
            &&& attempt <= last <= attempts
            &&& outcome == outcomes(last)
            &&& forall|k: u32|
                attempt <= k < last ==> (#[trigger] outcomes(k) matches Err(e) && e.retryable())
            &&& last < attempts ==> (outcome is Ok || !(outcome->Err_0).retryable())
        }),
    decreases attempts - attempt,
{
    match after_attempt_spec(attempt, attempts, outcomes(attempt)) {
        RetryStepView::Done(outcome) => {},
        RetryStepView::Again(_, next) => {
            law_turn_stops_at_first_decisive_attempt(next, attempts, outcomes);
        },
    }
}

/// The request of a turn: where it goes, what it says, and how often it is
/// tried.
#[derive(Debug)]
pub struct TurnRequest {
    pub url: String,
    pub body: Json,
    pub attempts: u32,
}

/// What the request of a turn says.
#[verifier::ext_equal]
pub struct TurnRequestView {
    pub url: Seq<char>,
    pub body: JsonView,
    pub attempts: u32,
}

impl View for TurnRequest {
    type V = TurnRequestView;

    open spec fn view(&self) -> TurnRequestView {
        TurnRequestView { url: self.url@, body: self.body@, attempts: self.attempts }
    }
}

/// The request of a turn, or the failure of one without a key.
pub open spec fn turn_request(
    config: ConfigView,
    messages: Seq<MessageView>,
    tools: Option<Seq<ToolDefView>>,
    tool_choice: Option<ToolChoice>,
) -> Result<TurnRequestView, GatewayFailure> {
    if config.api_key.len() == 0 {
        Err(GatewayFailure::MissingApiKey)
    } else {
        let params = config.params_for(config.model);
        Ok(
            TurnRequestView {
                url: config.base_url + "/chat/completions"@,
                body: ChatRequestView {
                    model: params.model,
                    messages,
                    reasoning_effort: params.reasoning_effort,
                    max_completion_tokens: params.max_tokens,
                    tools,
                    tool_choice,
                }.wire(),
                attempts: if config.max_attempts < 1 {
                    1
                } else {
                    config.max_attempts
                },
            },
        )
    }
}

/// Plans the request of a turn. Without a key nothing is sent.
pub fn plan_turn(
    config: &GatewayConfig,
    messages: Vec<ChatMessage>,
    tools: Option<Vec<ToolDef>>,
    tool_choice: Option<ToolChoice>,
) -> (r: Result<TurnRequest, GatewayError>)
    ensures
        match r {
            Ok(request) => turn_request(config@, views(messages@), tools_view(tools), tool_choice)
                == Ok::<TurnRequestView, GatewayFailure>(request@),
            Err(e) => turn_request(config@, views(messages@), tools_view(tools), tool_choice)
                == Err::<TurnRequestView, GatewayFailure>(e@),
        },
{
    if config.api_key().is_empty() {
        return Err(GatewayError::MissingApiKey);
    }
    let params = config.model_params();
    let request = ChatRequest::from_resolved_with_tools(&params, messages, tools, tool_choice);
    Ok(TurnRequest { url: config.endpoint(), body: request.to_json(), attempts: config.attempts() })
}

/// A planned turn asks the configured model at the configured endpoint, with
/// the messages and tools of the caller; without a key nothing is planned.
pub proof fn law_turns_ask_what_they_are_given(
    config: ConfigView,
    messages: Seq<MessageView>,
    tools: Option<Seq<ToolDefView>>,
    tool_choice: Option<ToolChoice>,
)
    ensures
        turn_request(config, messages, tools, tool_choice) is Err <==> config.api_key.len() == 0,
        turn_request(config, messages, tools, tool_choice) matches Ok(request) ==> {
            &&& config.base_url.is_prefix_of(request.url)
            &&& request.url.skip(config.base_url.len() as int) == "/chat/completions"@
            &&& request.attempts >= 1
            &&& config.max_attempts >= 1 ==> request.attempts == config.max_attempts
            &&& request.body.field("model"@) == Some(JsonView::Text(config.model))
            &&& request.body.field("messages"@) matches Some(JsonView::Array(items)) && {
                &&& items.len() == messages.len()
                &&& forall|i: int|
                    #![trigger items[i]]
                    #![trigger messages[i]]
                    0 <= i < items.len() ==> items[i].field("role"@) == Some(
                        JsonView::Text(messages[i].role),
                    ) && items[i].field("content"@) == Some(JsonView::Text(messages[i].content))
            }
            &&& request.body.field("tools"@) is Some <==> tools is Some
            &&& !config.model_overrides.dom().contains(config.model)
                && config.default_max_tokens is None ==> request.body.field(
                "max_completion_tokens"@,
            ) is None
            &&& !config.model_overrides.dom().contains(config.model)
                && config.default_max_tokens is Some ==> request.body.field(
                "max_completion_tokens"@,
            ) == Some(JsonView::Number(config.default_max_tokens->0 as nat))
            &&& config.model_overrides.dom().contains(config.model)
                && config.model_overrides[config.model].max_tokens is Some ==> request.body.field(
                "max_completion_tokens"@,
            ) == Some(
                JsonView::Number(config.model_overrides[config.model].max_tokens->0 as nat),
            )
            &&& config.model_overrides.dom().contains(config.model)
                && config.model_overrides[config.model].reasoning_effort is Some
                ==> request.body.field("reasoning_effort"@) == Some(
                JsonView::Text(config.model_overrides[config.model].reasoning_effort->0),
            )
            &&& !config.model_overrides.dom().contains(config.model)
                && config.default_reasoning_effort is Some ==> request.body.field(
                "reasoning_effort"@,
            ) == Some(JsonView::Text(config.default_reasoning_effort->0))
        },
{
    if config.api_key.len() > 0 {
        let params = config.params_for(config.model);
        let request = ChatRequestView {
            model: params.model,
            messages,
            reasoning_effort: params.reasoning_effort,
            max_completion_tokens: params.max_tokens,
            tools,
            tool_choice,
        };
        crate::shared::gateway::reply::law_unset_means_omitted(request);
        crate::shared::gateway::reply::law_messages_go_out_as_they_are(request);
        let url = config.base_url + "/chat/completions"@;
        assert(url.skip(config.base_url.len() as int) =~= "/chat/completions"@);
        assert(url.subrange(0, config.base_url.len() as int) =~= config.base_url);
    }
}

/// A pause that the gateway asks for is kept to, up to a minute; otherwise the
/// pauses double from one second to eight.
pub proof fn law_pauses_double_or_are_asked_for(attempt: u32, asked: u64)
    ensures
        pause_secs(1, None) == 1,
        1 <= attempt < 4 ==> pause_secs((attempt + 1) as u32, None) == 2 * pause_secs(
            attempt,
            None,
        ),
        attempt >= 4 ==> pause_secs(attempt, None) == 8,
        asked <= 60 ==> pause_secs(attempt, Some(asked)) == asked,
        asked > 60 ==> pause_secs(attempt, Some(asked)) == 60,
{
}

/// Every status that tells of a failure is one, and no other is; only limits
/// and faults of the server are worth another attempt.
pub proof fn law_statuses_tell_failures(status: u16, retry_after: Option<Seq<char>>)
    ensures
        status_failure(status, retry_after) is Some <==> 400 <= status < 600,
        status_failure(status, retry_after) matches Some(e) ==> {
            &&& e.retryable() <==> status == 429 || status >= 500
            &&& e is Auth <==> status == 401 || status == 403
            &&& e is RateLimited <==> status == 429
            &&& e matches GatewayFailure::Server { status: told } ==> told == status
            &&& e matches GatewayFailure::Client { status: told } ==> told == status
            &&& status >= 500 ==> e is Server
        },
        !GatewayFailure::MissingApiKey.retryable(),
        !GatewayFailure::EmptyChoices.retryable(),
        !GatewayFailure::ToolCallsUnsupported.retryable(),
        GatewayFailure::Timeout.retryable(),
        forall|t: Seq<char>| #[trigger] GatewayFailure::Transport(t).retryable(),
        forall|t: Seq<char>| !(#[trigger] GatewayFailure::Parse(t).retryable()),
        forall|t: Seq<char>| !(#[trigger] GatewayFailure::Refused(t).retryable()),
{
}

/// The seconds that a limited gateway names in its header are the pause before
/// the next attempt; a header that names no number is no wish.
pub proof fn law_named_pauses_are_kept(
    attempt: u32,
    attempts: u32,
    secs: u64,
    before: Seq<char>,
    after: Seq<char>,
)
    requires
        attempt < attempts,
        crate::text::is_blank(before),
        crate::text::is_blank(after),
    ensures
        status_failure(429, Some(before + crate::text::decimal(secs as nat) + after)) == Some(
            GatewayFailure::RateLimited { retry_after_secs: Some(secs) },
        ),
        secs <= 60 ==> after_attempt_spec(
            attempt,
            attempts,
            Err(GatewayFailure::RateLimited { retry_after_secs: Some(secs) }),
        ) == RetryStepView::Again(secs as nat * 1_000_000_000, (attempt + 1) as u32),
        after_attempt_spec(attempt, attempts, Err(GatewayFailure::Timeout)) is Again,
        after_attempt_spec(attempts, attempts, Err(GatewayFailure::Timeout)) is Done,
        after_attempt_spec(attempt, attempts, Err(GatewayFailure::Auth)) == RetryStepView::Done(
            Err(GatewayFailure::Auth),
        ),
{
    let n = secs as nat;
    let text = crate::text::decimal(n);
    crate::text::law_numbers_round_trip(n, u64::MAX as nat);
    crate::text::lemma_decimal_digits(n);
    crate::text::law_trimming_takes_the_white_space_around(before, text, after);
}

/// A failure is told with what is known of it: the status, the seconds to
/// wait, or the detail.
pub proof fn law_messages_tell_what_is_known(failure: GatewayFailure)
    ensures
        match failure {
            GatewayFailure::RateLimited { retry_after_secs: Some(secs) } => crate::text::has_text(
                failure.message(),
                decimal(secs as nat),
            ),
            GatewayFailure::Server { status } => crate::text::has_text(
                failure.message(),
                decimal(status as nat),
            ) && crate::text::has_text(failure.message(), "server"@),
            GatewayFailure::Client { status } => crate::text::has_text(
                failure.message(),
                decimal(status as nat),
            ) && crate::text::has_text(failure.message(), "client"@),
            GatewayFailure::Transport(detail) => detail.is_suffix_of(failure.message()),
            GatewayFailure::Parse(detail) => detail.is_suffix_of(failure.message()),
            GatewayFailure::Refused(text) => text.is_suffix_of(failure.message()),
            _ => failure.message().len() > 0,
        },
{
    let m = failure.message();
    match failure {
        GatewayFailure::RateLimited { retry_after_secs: Some(secs) } => {
            crate::text::lemma_has_middle(
                "gateway rate-limited, retry after "@,
                decimal(secs as nat),
                "s"@,
            );
        },
        GatewayFailure::Server { status } => {
            crate::text::lemma_has_middle(
                "gateway server error (HTTP "@,
                decimal(status as nat),
                ")"@,
            );
            reveal_strlit("gateway server error (HTTP ");
            reveal_strlit("server");
            assert(m.subrange(8, 14) =~= "server"@);
            assert(crate::text::occurs_at(m, "server"@, 8));
        },
        GatewayFailure::Client { status } => {
            crate::text::lemma_has_middle(
                "gateway client error (HTTP "@,
                decimal(status as nat),
                ")"@,
            );
            reveal_strlit("gateway client error (HTTP ");
            reveal_strlit("client");
            assert(m.subrange(8, 14) =~= "client"@);
            assert(crate::text::occurs_at(m, "client"@, 8));
        },
        GatewayFailure::Transport(detail) => {
            assert(m.skip(m.len() - detail.len()) =~= detail);
        },
        GatewayFailure::Parse(detail) => {
            assert(m.skip(m.len() - detail.len()) =~= detail);
        },
        GatewayFailure::Refused(text) => {
            assert(m.skip(m.len() - text.len()) =~= text);
        },
        _ => {
            reveal_strlit("GATEWAY_API_KEY is not set");
            reveal_strlit("gateway auth failed (bad API key)");
            reveal_strlit("gateway rate-limited");
            reveal_strlit("gateway request timed out");
            reveal_strlit("gateway returned no choices");
            reveal_strlit("model requested tool calls, but the turn offered no tools");
        },
    }
}

/// A turn ends with a reply, with a failure that another attempt would not
/// mend, or with the last attempt; otherwise the next attempt follows the
/// pause that the failure asks for, or that the attempts so far call for.
pub proof fn law_attempts_go_on_until_decided(
    attempt: u32,
    attempts: u32,
    reply: ReplyView,
    e: GatewayFailure,
)
    requires
        attempt < u32::MAX,
    ensures
        after_attempt_spec(attempt, attempts, Ok(reply)) == RetryStepView::Done(Ok(reply)),
        !e.retryable() || attempt >= attempts ==> after_attempt_spec(attempt, attempts, Err(e))
            == RetryStepView::Done(Err(e)),
        e.retryable() && attempt < attempts ==> (after_attempt_spec(
            attempt,
            attempts,
            Err(e),
        ) matches RetryStepView::Again(pause, next) && {
            &&& next == attempt + 1
            &&& !(e is RateLimited) ==> pause == pause_secs(attempt, None) * 1_000_000_000
            &&& e matches GatewayFailure::RateLimited { retry_after_secs } ==> pause == pause_secs(
                attempt,
                retry_after_secs,
            ) * 1_000_000_000
        }),
        status_failure(429, None) == Some(GatewayFailure::RateLimited { retry_after_secs: None }),
{
}

/// The tools of a turn are offered under their names, with their purposes and
/// parameters, and the choice among them goes with them.
pub proof fn law_turns_offer_their_tools(
    config: ConfigView,
    messages: Seq<MessageView>,
    tools: Option<Seq<ToolDefView>>,
    tool_choice: Option<ToolChoice>,
)
    ensures
        turn_request(config, messages, tools, tool_choice) matches Ok(request) ==> {
            &&& tools matches Some(all) ==> (request.body.field("tools"@) matches Some(
                JsonView::Array(items),
            ) && items.len() == all.len() && forall|i: int|
                #![trigger items[i]]
                #![trigger all[i]]
                0 <= i < items.len() ==> (items[i].field("function"@) matches Some(f) && f.field(
                    "name"@,
                ) == Some(JsonView::Text(all[i].name)) && f.field("description"@) == Some(
                    JsonView::Text(all[i].description),
                ) && f.field("parameters"@) == Some(all[i].parameters)))
            &&& tool_choice is Some <==> request.body.field("tool_choice"@) == Some(
                JsonView::Text("auto"@),
            )
        },
{
    if config.api_key.len() > 0 {
        let params = config.params_for(config.model);
        let request = ChatRequestView {
            model: params.model,
            messages,
            reasoning_effort: params.reasoning_effort,
            max_completion_tokens: params.max_tokens,
            tools,
            tool_choice,
        };
        crate::shared::gateway::reply::law_tools_go_out_as_they_are(request);
        crate::shared::gateway::reply::law_unset_means_omitted(request);
    }
}

} // verus!
