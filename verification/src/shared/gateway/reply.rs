//! Wire types of the gateway: chat bodies and the turn that is read from a
//! response.
//!
//! Every field of a response may be missing: an unknown shape of thinking
//! becomes empty thinking, never a failure.

use vstd::prelude::*;
use crate::foreign::{parse_json, ToolArguments};
use crate::json::Json;
use crate::shared::gateway::client::GatewayError;
use crate::shared::gateway::config::ResolvedParams;
use crate::text::{copied, joined};
#[allow(unused_imports)]
use crate::foreign::{parsed_json, ArgumentsView};
#[allow(unused_imports)]
use crate::json::{empty_object, JsonView};
#[allow(unused_imports)]
use crate::shared::gateway::client::GatewayFailure;
#[allow(unused_imports)]
use crate::text::{join, lemma_views_empty, lemma_views_push, opt_view, views};

verus! {

/// One message of a chat request.
#[derive(Debug)]
pub struct ChatMessage {
    pub role: String,
    pub content: String,
}

/// What a message says.
#[verifier::ext_equal]
pub struct MessageView {
    pub role: Seq<char>,
    pub content: Seq<char>,
}

impl View for ChatMessage {
    type V = MessageView;

    open spec fn view(&self) -> MessageView {
        MessageView { role: self.role@, content: self.content@ }
    }
}

impl Clone for ChatMessage {
    fn clone(&self) -> (r: Self)
        ensures
            r@ == self@,
    {
        ChatMessage { role: self.role.clone(), content: self.content.clone() }
    }
}

/// A tool that a request offers.
#[derive(Debug)]
pub struct ToolDef {
    pub name: String,
    pub description: String,
    /// The JSON schema of the arguments.
    pub parameters: Json,
}

/// What a tool definition says.
#[verifier::ext_equal]
pub struct ToolDefView {
    pub name: Seq<char>,
    pub description: Seq<char>,
    pub parameters: JsonView,
}

impl View for ToolDef {
    type V = ToolDefView;

    open spec fn view(&self) -> ToolDefView {
        ToolDefView {
            name: self.name@,
            description: self.description@,
            parameters: self.parameters@,
        }
    }
}

/// Whether the model may pick tools.
#[derive(Debug, Clone, Copy, PartialEq, Eq, Structural)]
pub enum ToolChoice {
    /// The model decides.
    Auto,
}

/// A tool call that the model asks for.
#[derive(Debug)]
pub struct RequestedToolCall {
    /// The call's id; empty where the model gave none.
    pub id: String,
    pub name: String,
    /// The arguments as JSON text.
    pub arguments: String,
}

/// What a requested call says.
#[verifier::ext_equal]
pub struct CallView {
    pub id: Seq<char>,
    pub name: Seq<char>,
    pub arguments: Seq<char>,
}

impl View for RequestedToolCall {
    type V = CallView;

    open spec fn view(&self) -> CallView {
        CallView { id: self.id@, name: self.name@, arguments: self.arguments@ }
    }
}

impl Clone for RequestedToolCall {
    fn clone(&self) -> (r: Self)
        ensures
            r@ == self@,
    {
        RequestedToolCall {
            id: self.id.clone(),
            name: self.name.clone(),
            arguments: self.arguments.clone(),
        }
    }
}

impl RequestedToolCall {
    /// The arguments, read as JSON.
    pub fn parsed_arguments(&self) -> (r: Result<ToolArguments, String>)
        ensures
            match r {
                Ok(args) => parsed_json(self@.arguments) == Ok::<ArgumentsView, Seq<char>>(args@),
                Err(e) => parsed_json(self@.arguments) == Err::<ArgumentsView, Seq<char>>(e@),
            },
    {
        parse_json(self.arguments.as_str())
    }
}

/// The body of a chat request.
#[derive(Debug)]
pub struct ChatRequest {
    pub model: String,
    pub messages: Vec<ChatMessage>,
    pub reasoning_effort: Option<String>,
    pub max_completion_tokens: Option<u32>,
    pub tools: Option<Vec<ToolDef>>,
    pub tool_choice: Option<ToolChoice>,
}

/// What a chat request says.
#[verifier::ext_equal]
pub struct ChatRequestView {
    pub model: Seq<char>,
    pub messages: Seq<MessageView>,
    pub reasoning_effort: Option<Seq<char>>,
    pub max_completion_tokens: Option<u32>,
    pub tools: Option<Seq<ToolDefView>>,
    pub tool_choice: Option<ToolChoice>,
}

/// The view of optional tools.
pub open spec fn tools_view(tools: Option<Vec<ToolDef>>) -> Option<Seq<ToolDefView>> {
    match tools {
        Some(tools) => Some(views(tools@)),
        None => None,
    }
}

impl View for ChatRequest {
    type V = ChatRequestView;

    open spec fn view(&self) -> ChatRequestView {
        ChatRequestView {
            model: self.model@,
            messages: views(self.messages@),
            reasoning_effort: opt_view(self.reasoning_effort),
            max_completion_tokens: self.max_completion_tokens,
            tools: tools_view(self.tools),
            tool_choice: self.tool_choice,
        }
    }
}

/// A message on the wire.
pub open spec fn message_json(m: MessageView) -> JsonView {
    empty_object().with("role"@, JsonView::Text(m.role)).with(
        "content"@,
        JsonView::Text(m.content),
    )
}

/// A tool on the wire.
pub open spec fn tool_json(t: ToolDefView) -> JsonView {
    empty_object().with("type"@, JsonView::Text("function"@)).with(
        "function"@,
        empty_object().with("name"@, JsonView::Text(t.name)).with(
            "description"@,
            JsonView::Text(t.description),
        ).with("parameters"@, t.parameters),
    )
}

impl ChatRequestView {
    /// The body on the wire. What is unset is left out.
    pub open spec fn wire(self) -> JsonView {
        let a = empty_object().with("model"@, JsonView::Text(self.model)).with(
            "messages"@,
            JsonView::Array(Seq::new(self.messages.len(), |i: int| message_json(self.messages[i]))),
        );
        let b = match self.reasoning_effort {
            Some(effort) => a.with("reasoning_effort"@, JsonView::Text(effort)),
            None => a,
        };
        let c = match self.max_completion_tokens {
            Some(n) => b.with("max_completion_tokens"@, JsonView::Number(n as nat)),
            None => b,
        };
        let d = match self.tools {
            Some(tools) => c.with(
                "tools"@,
                JsonView::Array(Seq::new(tools.len(), |i: int| tool_json(tools[i]))),
            ),
            None => c,
        };
        match self.tool_choice {
            Some(_) => d.with("tool_choice"@, JsonView::Text("auto"@)),
            None => d,
        }
    }
}

/// What is unset is left out of the body, and what is set stands in it.
pub proof fn law_unset_means_omitted(request: ChatRequestView)
    ensures
        request.wire().field("model"@) == Some(JsonView::Text(request.model)),
        request.wire().field("reasoning_effort"@) == match request.reasoning_effort {
            Some(effort) => Some(JsonView::Text(effort)),
            None => None,
        },
        request.wire().field("max_completion_tokens"@) == match request.max_completion_tokens {
            Some(n) => Some(JsonView::Number(n as nat)),
            None => None,
        },
        request.wire().field("tools"@) is Some <==> request.tools is Some,
        request.wire().field("tool_choice"@) is Some <==> request.tool_choice is Some,
{
    reveal_strlit("model");
    reveal_strlit("messages");
    reveal_strlit("reasoning_effort");
    reveal_strlit("max_completion_tokens");
    reveal_strlit("tools");
    reveal_strlit("tool_choice");
    assert("model"@.len() == 5);
    assert("messages"@.len() == 8);
    assert("reasoning_effort"@.len() == 16);
    assert("max_completion_tokens"@.len() == 21);
    assert("tools"@.len() == 5 && "tools"@[0] == 't' && "model"@[0] == 'm');
    assert("tool_choice"@.len() == 11);
    reveal_with_fuel(crate::json::first_field, 7);
}

fn messages_to_json(messages: &Vec<ChatMessage>) -> (r: Vec<Json>)
    ensures
        views(r@) == Seq::new(messages@.len(), |i: int| message_json(views(messages@)[i])),
{
    broadcast use {lemma_views_push, lemma_views_empty};

    let ghost all = Seq::new(messages@.len(), |i: int| message_json(views(messages@)[i]));
    let mut out: Vec<Json> = Vec::new();
    let mut i: usize = 0;
    while i < messages.len()
        invariant
            i <= messages@.len(),
            all == Seq::new(messages@.len(), |i: int| message_json(views(messages@)[i])),
            views(out@) == all.take(i as int),
        decreases messages@.len() - i,
    {
        let item = Json::object().with("role", Json::text(messages[i].role.as_str())).with(
            "content",
            Json::text(messages[i].content.as_str()),
        );
        let ghost so_far = views(out@);
        out.push(item);
        assert(views(out@) == so_far.push(all[i as int]));
        i += 1;
        assert(views(out@) =~= all.take(i as int));
    }
    assert(views(out@) =~= all);
    out
}

fn tools_to_json(tools: Vec<ToolDef>) -> (r: Vec<Json>)
    ensures
        views(r@) == Seq::new(tools@.len(), |i: int| tool_json(views(tools@)[i])),
{
    broadcast use {lemma_views_push, lemma_views_empty};

    let ghost source = tools@;
    let ghost all = Seq::new(source.len(), |i: int| tool_json(views(source)[i]));
    let mut out: Vec<Json> = Vec::new();
    for tool in it: tools
        invariant
            it.seq() == source,
            all == Seq::new(source.len(), |i: int| tool_json(views(source)[i])),
            views(out@) == all.take(it.index() as int),
    {
        let ghost n = it.index() as int;
        let item = Json::object().with("type", Json::text("function")).with(
            "function",
            Json::object().with("name", Json::text(tool.name.as_str())).with(
                "description",
                Json::text(tool.description.as_str()),
            ).with("parameters", tool.parameters),
        );
        let ghost so_far = views(out@);
        out.push(item);
        assert(views(out@) == so_far.push(all[n]));
        assert(views(out@) =~= all.take(n + 1));
    }
    assert(views(out@) =~= all);
    out
}

impl ChatRequest {
    /// A request without tools.
    pub fn from_resolved(params: &ResolvedParams, messages: Vec<ChatMessage>) -> (r: ChatRequest)
        ensures
            r@ == (ChatRequestView {
                model: params@.model,
                messages: views(messages@),
                reasoning_effort: params@.reasoning_effort,
                max_completion_tokens: params@.max_tokens,
                tools: None,
                tool_choice: None,
            }),
    {
        ChatRequest {
            model: params.model.clone(),
            messages,
            reasoning_effort: copied(&params.reasoning_effort),
            max_completion_tokens: params.max_tokens,
            tools: None,
            tool_choice: None,
        }
    }

    /// A request that offers tools.
    pub fn from_resolved_with_tools(
        params: &ResolvedParams,
        messages: Vec<ChatMessage>,
        tools: Option<Vec<ToolDef>>,
        tool_choice: Option<ToolChoice>,
    ) -> (r: ChatRequest)
        ensures
            r@ == (ChatRequestView {
                model: params@.model,
                messages: views(messages@),
                reasoning_effort: params@.reasoning_effort,
                max_completion_tokens: params@.max_tokens,
                tools: tools_view(tools),
                tool_choice,
            }),
    {
        ChatRequest {
            model: params.model.clone(),
            messages,
            reasoning_effort: copied(&params.reasoning_effort),
            max_completion_tokens: params.max_tokens,
            tools,
            tool_choice,
        }
    }

    /// The body on the wire. What is unset is left out.
    pub fn to_json(self) -> (r: Json)
        ensures
            r@ == self@.wire(),
    {
        let messages = messages_to_json(&self.messages);
        let mut body = Json::object().with("model", Json::text(self.model.as_str())).with(
            "messages",
            Json::array(messages),
        );
        match &self.reasoning_effort {
            Some(effort) => {
                body = body.with("reasoning_effort", Json::text(effort.as_str()));
            },
            None => {},
        }
        match self.max_completion_tokens {
            Some(n) => {
                body = body.with("max_completion_tokens", Json::Number(n as u64));
            },
            None => {},
        }
        match self.tools {
            Some(tools) => {
                let items = tools_to_json(tools);
                body = body.with("tools", Json::array(items));
            },
            None => {},
        }
        match self.tool_choice {
            Some(_) => {
                body = body.with("tool_choice", Json::text("auto"));
            },
            None => {},
        }
        body
    }
}

/// A chat response.
#[derive(Debug)]
pub struct ChatResponse {
    pub choices: Vec<Choice>,
    pub usage: Option<ResponseUsage>,
}

/// One choice of a response.
#[derive(Debug)]
pub struct Choice {
    pub message: ResponseMessage,
    pub finish_reason: Option<String>,
}

/// The message of a choice.
#[derive(Debug, Default)]
pub struct ResponseMessage {
    pub content: Option<String>,
    pub refusal: Option<String>,
    /// Thinking as one field.
    pub reasoning_content: Option<String>,
    /// Thinking as a field beside blocks.
    pub reasoning: Option<String>,
    /// The blocks.
    pub reasoning_details: Vec<ReasoningDetail>,
    pub tool_calls: Vec<ToolCall>,
}

/// One block of thinking.
#[derive(Debug, Default)]
pub struct ReasoningDetail {
    pub text: Option<String>,
}

impl View for ReasoningDetail {
    type V = Option<Seq<char>>;

    open spec fn view(&self) -> Option<Seq<char>> {
        opt_view(self.text)
    }
}

/// A tool call on the wire.
#[derive(Debug, Default)]
pub struct ToolCall {
    pub id: Option<String>,
    pub function: Option<ToolFunction>,
}

/// The function of a tool call on the wire.
#[derive(Debug, Default)]
pub struct ToolFunction {
    pub name: Option<String>,
    pub arguments: Option<String>,
}

/// Token counts on the wire.
#[derive(Debug, Default)]
pub struct ResponseUsage {
    pub prompt_tokens: u64,
    pub completion_tokens: u64,
    pub total_tokens: u64,
    pub completion_tokens_details: Option<CompletionDetails>,
}

/// Details of the completion's tokens.
#[derive(Debug, Default)]
pub struct CompletionDetails {
    pub reasoning_tokens: u64,
}

/// Token counts of a turn.
#[derive(Debug, Clone, Copy, PartialEq, Eq, Structural)]
pub struct TokenUsage {
    pub prompt_tokens: u64,
    pub completion_tokens: u64,
    pub total_tokens: u64,
    /// From the details of the completion; 0 where there are none.
    pub reasoning_tokens: u64,
}

impl Default for TokenUsage {
    fn default() -> (r: Self)
        ensures
            r == no_usage(),
    {
        TokenUsage { prompt_tokens: 0, completion_tokens: 0, total_tokens: 0, reasoning_tokens: 0 }
    }
}

/// No tokens at all.
pub open spec fn no_usage() -> TokenUsage {
    TokenUsage { prompt_tokens: 0, completion_tokens: 0, total_tokens: 0, reasoning_tokens: 0 }
}

/// One completed turn.
#[derive(Debug, Clone)]
pub struct LlmReply {
    /// The thinking, its parts one below the other; may be empty.
    pub thinking: String,
    /// The text of the assistant; empty where the content is null.
    pub output: String,
    /// The reason why the model stopped, as it came.
    pub finish_reason: Option<String>,
    /// The tool calls that the model asks for, in wire order.
    pub tool_calls: Vec<RequestedToolCall>,
    pub usage: TokenUsage,
}

/// What a turn says.
#[verifier::ext_equal]
pub struct ReplyView {
    pub thinking: Seq<char>,
    pub output: Seq<char>,
    pub finish_reason: Option<Seq<char>>,
    pub tool_calls: Seq<CallView>,
    pub usage: TokenUsage,
}

impl View for LlmReply {
    type V = ReplyView;

    open spec fn view(&self) -> ReplyView {
        ReplyView {
            thinking: self.thinking@,
            output: self.output@,
            finish_reason: opt_view(self.finish_reason),
            tool_calls: views(self.tool_calls@),
            usage: self.usage,
        }
    }
}

impl Default for LlmReply {
    fn default() -> (r: Self)
        ensures
            r@ == (ReplyView {
                thinking: Seq::empty(),
                output: Seq::empty(),
                finish_reason: None,
                tool_calls: Seq::empty(),
                usage: no_usage(),
            }),
    {
        let tool_calls: Vec<RequestedToolCall> = Vec::new();
        proof {
            lemma_views_empty(tool_calls@);
        }
        LlmReply {
            thinking: String::new(),
            output: String::new(),
            finish_reason: None,
            tool_calls,
            usage: TokenUsage::default(),
        }
    }
}

/// A text, unless it is missing or empty.
pub open spec fn filled(s: Option<Seq<char>>) -> Seq<Seq<char>> {
    match s {
        Some(t) => if t.len() > 0 {
            seq![t]
        } else {
            Seq::empty()
        },
        None => Seq::empty(),
    }
}

/// The texts of the blocks that have one.
pub open spec fn filled_blocks(blocks: Seq<Option<Seq<char>>>) -> Seq<Seq<char>>
    decreases blocks.len(),
{
    if blocks.len() == 0 {
        Seq::empty()
    } else {
        filled_blocks(blocks.drop_last()) + filled(blocks.last())
    }
}

/// The parts of the thinking: the one field, the other field, the blocks.
pub open spec fn thinking_parts(msg: ResponseMessage) -> Seq<Seq<char>> {
    filled(opt_view(msg.reasoning_content)) + filled(opt_view(msg.reasoning)) + filled_blocks(
        views(msg.reasoning_details@),
    )
}

/// A text, empty where it is missing.
pub open spec fn or_empty(s: Option<Seq<char>>) -> Seq<char> {
    match s {
        Some(t) => t,
        None => Seq::empty(),
    }
}

impl View for ToolCall {
    type V = CallView;

    /// The call that is asked for; what is missing is empty.
    open spec fn view(&self) -> CallView {
        CallView {
            id: or_empty(opt_view(self.id)),
            name: match self.function {
                Some(f) => or_empty(opt_view(f.name)),
                None => Seq::empty(),
            },
            arguments: match self.function {
                Some(f) => or_empty(opt_view(f.arguments)),
                None => Seq::empty(),
            },
        }
    }
}

/// The token counts of a response.
pub open spec fn usage_of(usage: Option<ResponseUsage>) -> TokenUsage {
    match usage {
        None => no_usage(),
        Some(u) => TokenUsage {
            prompt_tokens: u.prompt_tokens,
            completion_tokens: u.completion_tokens,
            total_tokens: u.total_tokens,
            reasoning_tokens: match u.completion_tokens_details {
                Some(d) => d.reasoning_tokens,
                None => 0,
            },
        },
    }
}

/// The turn that a response is read as, in a turn that offers tools: the
/// first choice counts, and a refusal comes before everything else in it.
pub open spec fn turn_of(resp: ChatResponse) -> Result<ReplyView, GatewayFailure> {
    if resp.choices@.len() == 0 {
        Err(GatewayFailure::EmptyChoices)
    } else {
        let choice = resp.choices@[0];
        let refusal = or_empty(opt_view(choice.message.refusal));
        if refusal.len() > 0 {
            Err(GatewayFailure::Refused(refusal))
        } else {
            Ok(
                ReplyView {
                    thinking: join(thinking_parts(choice.message), "\n"@),
                    output: or_empty(opt_view(choice.message.content)),
                    finish_reason: opt_view(choice.finish_reason),
                    tool_calls: views(choice.message.tool_calls@),
                    usage: usage_of(resp.usage),
                },
            )
        }
    }
}

/// The turn that a response is read as, in a turn that offers no tools: calls
/// are denied.
pub open spec fn toolless_turn(turn: Result<ReplyView, GatewayFailure>) -> Result<
    ReplyView,
    GatewayFailure,
> {
    match turn {
        Ok(reply) => if reply.tool_calls.len() > 0 {
            Err(GatewayFailure::ToolCallsUnsupported)
        } else {
            Ok(reply)
        },
        Err(e) => Err(e),
    }
}

/// The view of a turn or its failure.
pub open spec fn turn_view(r: Result<LlmReply, GatewayError>) -> Result<ReplyView, GatewayFailure> {
    match r {
        Ok(reply) => Ok(reply@),
        Err(e) => Err(e@),
    }
}

fn push_filled(parts: &mut Vec<String>, text: &Option<String>)
    ensures
        views(final(parts)@) == views(old(parts)@) + filled(opt_view(*text)),
{
    let ghost before = parts@;
    match text {
        Some(t) => {
            if !t.as_str().is_empty() {
                let copy = t.clone();
                proof {
                    lemma_views_push(before, copy);
                    assert(views(before).push(t@) =~= views(before) + seq![t@]);
                }
                parts.push(copy);
            } else {
                assert(views(before) =~= views(before) + Seq::<Seq<char>>::empty());
            }
        },
        None => {
            assert(views(before) =~= views(before) + Seq::<Seq<char>>::empty());
        },
    }
}

fn thinking_of(msg: &ResponseMessage) -> (r: String)
    ensures
        r@ == join(thinking_parts(*msg), "\n"@),
{
    let mut parts: Vec<String> = Vec::new();
    proof {
        lemma_views_empty(parts@);
    }
    push_filled(&mut parts, &msg.reasoning_content);
    push_filled(&mut parts, &msg.reasoning);
    let ghost head = views(parts@);
    let ghost blocks = views(msg.reasoning_details@);
    let mut i: usize = 0;
    assert(head + filled_blocks(blocks.take(0)) =~= head);
    while i < msg.reasoning_details.len()
        invariant
            i <= msg.reasoning_details@.len(),
            blocks == views(msg.reasoning_details@),
            views(parts@) == head + filled_blocks(blocks.take(i as int)),
        decreases msg.reasoning_details@.len() - i,
    {
        assert(blocks.take(i + 1).drop_last() =~= blocks.take(i as int));
        assert(blocks.take(i + 1).last() == msg.reasoning_details@[i as int]@);
        push_filled(&mut parts, &msg.reasoning_details[i].text);
        i += 1;
        assert(views(parts@) =~= head + filled_blocks(blocks.take(i as int)));
    }
    assert(blocks.take(i as int) =~= blocks);
    assert(views(parts@) =~= thinking_parts(*msg));
    joined(parts.as_slice(), "\n")
}

fn text_or_empty(s: &Option<String>) -> (r: String)
    ensures
        r@ == or_empty(opt_view(*s)),
{
    match s {
        Some(t) => t.clone(),
        None => String::new(),
    }
}

fn calls_of(calls: &Vec<ToolCall>) -> (r: Vec<RequestedToolCall>)
    ensures
        views(r@) == views(calls@),
{
    broadcast use {lemma_views_push, lemma_views_empty};

    let mut out: Vec<RequestedToolCall> = Vec::new();
    let mut i: usize = 0;
    while i < calls.len()
        invariant
            i <= calls@.len(),
            views(out@) == views(calls@).take(i as int),
        decreases calls@.len() - i,
    {
        let call = match &calls[i].function {
            Some(f) => RequestedToolCall {
                id: text_or_empty(&calls[i].id),
                name: text_or_empty(&f.name),
                arguments: text_or_empty(&f.arguments),
            },
            None => RequestedToolCall {
                id: text_or_empty(&calls[i].id),
                name: String::new(),
                arguments: String::new(),
            },
        };
        let ghost so_far = views(out@);
        assert(call@ =~= calls@[i as int]@);
        out.push(call);
        assert(views(out@) == so_far.push(views(calls@)[i as int]));
        i += 1;
        assert(views(out@) =~= views(calls@).take(i as int));
    }
    assert(views(out@) =~= views(calls@));
    out
}

/// Reads a response of a turn that offers tools.
pub fn parse_tool_reply(resp: &ChatResponse) -> (r: Result<LlmReply, GatewayError>)
    ensures
        turn_view(r) == turn_of(*resp),
{
    if resp.choices.len() == 0 {
        return Err(GatewayError::EmptyChoices);
    }
    let choice = &resp.choices[0];
    let refusal = text_or_empty(&choice.message.refusal);
    if !refusal.as_str().is_empty() {
        return Err(GatewayError::Refused(refusal));
    }
    let usage = match &resp.usage {
        None => TokenUsage::default(),
        Some(u) => TokenUsage {
            prompt_tokens: u.prompt_tokens,
            completion_tokens: u.completion_tokens,
            total_tokens: u.total_tokens,
            reasoning_tokens: match &u.completion_tokens_details {
                Some(d) => d.reasoning_tokens,
                None => 0,
            },
        },
    };
    Ok(
        LlmReply {
            thinking: thinking_of(&choice.message),
            output: text_or_empty(&choice.message.content),
            finish_reason: copied(&choice.finish_reason),
            tool_calls: calls_of(&choice.message.tool_calls),
            usage,
        },
    )
}

/// Reads a response of a turn that offers no tools. Tool calls in it are
/// denied, never run.
pub fn parse_reply(resp: &ChatResponse) -> (r: Result<LlmReply, GatewayError>)
    ensures
        turn_view(r) == toolless_turn(turn_of(*resp)),
{
    match parse_tool_reply(resp) {
        Ok(reply) => {
            assert(reply@.tool_calls.len() == reply.tool_calls@.len());
            if reply.tool_calls.len() > 0 {
                Err(GatewayError::ToolCallsUnsupported)
            } else {
                Ok(reply)
            }
        },
        Err(e) => Err(e),
    }
}

/// Reads the response of a turn: calls are handed on where the turn offers
/// tools, and denied where it offers none.
pub fn read_turn(resp: &ChatResponse, offers_tools: bool) -> (r: Result<LlmReply, GatewayError>)
    ensures
        turn_view(r) == if offers_tools {
            turn_of(*resp)
        } else {
            toolless_turn(turn_of(*resp))
        },
{
    if offers_tools {
        parse_tool_reply(resp)
    } else {
        parse_reply(resp)
    }
}

/// The messages on the wire are those of the request: as many, in the same
/// order, each with its own role and content.
pub proof fn law_messages_go_out_as_they_are(request: ChatRequestView)
    ensures
        request.wire().field("messages"@) matches Some(JsonView::Array(items)) && {
            &&& items.len() == request.messages.len()
            &&& forall|i: int|
                #![trigger items[i]]
                #![trigger request.messages[i]]
                0 <= i < items.len() ==> items[i].field("role"@) == Some(
                    JsonView::Text(request.messages[i].role),
                ) && items[i].field("content"@) == Some(
                    JsonView::Text(request.messages[i].content),
                )
        },
{
    reveal_strlit("model");
    reveal_strlit("messages");
    reveal_strlit("role");
    reveal_strlit("content");
    assert("model"@.len() == 5);
    assert("messages"@.len() == 8);
    assert("role"@.len() == 4);
    assert("content"@.len() == 7);
    reveal_with_fuel(crate::json::first_field, 7);
    lemma_wire_fields(request);
}

/// The tools on the wire are those that are offered: as many, in the same
/// order, each a function with its own name, purpose and parameters; and the
/// model is left the choice.
pub proof fn law_tools_go_out_as_they_are(request: ChatRequestView)
    ensures
        request.tools matches Some(tools) ==> (request.wire().field("tools"@) matches Some(
            JsonView::Array(items),
        ) && {
            &&& items.len() == tools.len()
            &&& forall|i: int|
                #![trigger items[i]]
                #![trigger tools[i]]
                0 <= i < items.len() ==> items[i].field("type"@) == Some(
                    JsonView::Text("function"@),
                ) && (items[i].field("function"@) matches Some(f) && {
                    &&& f.field("name"@) == Some(JsonView::Text(tools[i].name))
                    &&& f.field("description"@) == Some(JsonView::Text(tools[i].description))
                    &&& f.field("parameters"@) == Some(tools[i].parameters)
                })
        }),
        request.tool_choice is Some ==> request.wire().field("tool_choice"@) == Some(
            JsonView::Text("auto"@),
        ),
{
    lemma_wire_fields(request);
    reveal_strlit("type");
    reveal_strlit("function");
    reveal_strlit("name");
    reveal_strlit("description");
    reveal_strlit("parameters");
    assert("type"@[0] == 't' && "function"@[0] == 'f');
    assert("name"@.len() == 4 && "description"@.len() == 11 && "parameters"@.len() == 10);
    reveal_with_fuel(crate::json::first_field, 4);
}

proof fn lemma_wire_fields(request: ChatRequestView)
    ensures
        request.wire().field("messages"@) == Some(
            JsonView::Array(
                Seq::new(request.messages.len(), |i: int| message_json(request.messages[i])),
            ),
        ),
        request.wire().field("tools"@) == match request.tools {
            Some(tools) => Some(
                JsonView::Array(Seq::new(tools.len(), |i: int| tool_json(tools[i]))),
            ),
            None => None,
        },
        request.wire().field("tool_choice"@) == match request.tool_choice {
            Some(_) => Some(JsonView::Text("auto"@)),
            None => None,
        },
{
    reveal_strlit("model");
    reveal_strlit("messages");
    reveal_strlit("reasoning_effort");
    reveal_strlit("max_completion_tokens");
    reveal_strlit("tools");
    reveal_strlit("tool_choice");
    assert("model"@.len() == 5);
    assert("messages"@.len() == 8);
    assert("reasoning_effort"@.len() == 16);
    assert("max_completion_tokens"@.len() == 21);
    assert("tools"@.len() == 5 && "tools"@[0] == 't' && "model"@[0] == 'm');
    assert("tool_choice"@.len() == 11);
    reveal_with_fuel(crate::json::first_field, 7);
}

/// What a response is read as: a refusal is never an answer, and without one
/// the text, the tool calls and the tokens are handed on as they came, those of
/// the first choice alone.
pub proof fn law_replies_are_read_as_they_came(resp: ChatResponse)
    ensures
        resp.choices@.len() == 0 <==> turn_of(resp) == Err::<ReplyView, GatewayFailure>(
            GatewayFailure::EmptyChoices,
        ),
        resp.choices@.len() > 0 ==> {
            let message = resp.choices@[0].message;
            let refused = message.refusal matches Some(text) && text@.len() > 0;
            &&& refused ==> turn_of(resp) == Err::<ReplyView, GatewayFailure>(
                GatewayFailure::Refused(message.refusal->0@),
            )
            &&& !refused ==> (turn_of(resp) matches Ok(reply) && {
                &&& message.content is Some ==> reply.output == message.content->0@
                &&& message.content is None ==> reply.output.len() == 0
                &&& resp.choices@[0].finish_reason is Some ==> reply.finish_reason == Some(
                    resp.choices@[0].finish_reason->0@,
                )
                &&& resp.choices@[0].finish_reason is None ==> reply.finish_reason is None
                &&& reply.tool_calls.len() == message.tool_calls@.len()
                &&& forall|i: int|
                    #![trigger reply.tool_calls[i]]
                    0 <= i < reply.tool_calls.len() ==> {
                        let call = message.tool_calls@[i];
                        &&& call.id is Some ==> reply.tool_calls[i].id == call.id->0@
                        &&& call.id is None ==> reply.tool_calls[i].id.len() == 0
                        &&& call.function matches Some(f) ==> {
                            &&& f.name is Some ==> reply.tool_calls[i].name == f.name->0@
                            &&& f.arguments is Some ==> reply.tool_calls[i].arguments
                                == f.arguments->0@
                        }
                    }
                &&& resp.usage matches Some(u) ==> reply.usage.prompt_tokens == u.prompt_tokens
                    && reply.usage.completion_tokens == u.completion_tokens
                    && reply.usage.total_tokens == u.total_tokens
                &&& (resp.usage matches Some(u) && u.completion_tokens_details is Some)
                    ==> reply.usage.reasoning_tokens
                    == resp.usage->0.completion_tokens_details->0.reasoning_tokens
                &&& resp.usage is None ==> reply.usage.prompt_tokens == 0
                    && reply.usage.completion_tokens == 0 && reply.usage.total_tokens == 0
                    && reply.usage.reasoning_tokens == 0
            })
        },
{
}

/// The thinking of a reply holds every part of it that is not empty: the
/// reasoning content, the reasoning and the text of each reasoning detail.
pub proof fn law_thinking_is_kept(resp: ChatResponse, i: int)
    requires
        turn_of(resp) is Ok,
    ensures
        ({
            let message = resp.choices@[0].message;
            let thinking = turn_of(resp)->Ok_0.thinking;
            &&& (message.reasoning_content matches Some(t) && t@.len() > 0) ==> crate::text::has_text(
                thinking,
                message.reasoning_content->0@,
            )
            &&& (message.reasoning matches Some(t) && t@.len() > 0) ==> crate::text::has_text(
                thinking,
                message.reasoning->0@,
            )
            &&& (0 <= i < message.reasoning_details@.len()
                && message.reasoning_details@[i].text is Some
                && message.reasoning_details@[i].text->0@.len() > 0) ==> crate::text::has_text(
                thinking,
                message.reasoning_details@[i].text->0@,
            )
        }),
{
    let message = resp.choices@[0].message;
    let a = filled(opt_view(message.reasoning_content));
    let b = filled(opt_view(message.reasoning));
    let blocks = views(message.reasoning_details@);
    let c = filled_blocks(blocks);
    let parts = thinking_parts(message);
    if message.reasoning_content matches Some(t) && t@.len() > 0 {
        assert(parts[0] == message.reasoning_content->0@);
        crate::text::lemma_join_part(parts, "\n"@, 0);
    }
    if message.reasoning matches Some(t) && t@.len() > 0 {
        assert(parts[a.len() as int] == message.reasoning->0@);
        crate::text::lemma_join_part(parts, "\n"@, a.len() as int);
    }
    if 0 <= i < blocks.len() && message.reasoning_details@[i].text is Some
        && message.reasoning_details@[i].text->0@.len() > 0 {
        let k = lemma_filled_block(blocks, i);
        assert(parts[a.len() + b.len() + k] == c[k]);
        crate::text::lemma_join_part(parts, "\n"@, a.len() + b.len() + k);
    }
}

proof fn lemma_filled_block(blocks: Seq<Option<Seq<char>>>, i: int) -> (k: int)
    requires
        0 <= i < blocks.len(),
        blocks[i] is Some,
        blocks[i]->0.len() > 0,
    ensures
        0 <= k < filled_blocks(blocks).len(),
        filled_blocks(blocks)[k] == blocks[i]->0,
    decreases blocks.len(),
{
    let front = blocks.drop_last();
    if i == blocks.len() - 1 {
        filled_blocks(front).len() as int
    } else {
        lemma_filled_block(front, i)
    }
}

/// A turn that offers no tools never gets tool calls, and every other reply of
/// it is read as in a turn that offers some.
pub proof fn law_calls_need_an_offer(turn: Result<ReplyView, GatewayFailure>)
    ensures
        toolless_turn(turn) matches Ok(reply) ==> reply.tool_calls.len() == 0 && turn == Ok::<
            ReplyView,
            GatewayFailure,
        >(reply),
        turn matches Ok(reply) && reply.tool_calls.len() == 0 ==> toolless_turn(turn) == turn,
        turn is Err ==> toolless_turn(turn) == turn,
{
}

/// The thinking of a reply is put together from its parts in one order, each
/// on lines of its own: the reasoning content, the reasoning, and then the
/// details one after another. Parts that say nothing are left out.
pub proof fn law_thinking_is_in_order(
    resp: ChatResponse,
    a: Seq<Option<Seq<char>>>,
    b: Seq<Option<Seq<char>>>,
    text: Seq<char>,
)
    ensures
        filled_blocks(a + b) == filled_blocks(a) + filled_blocks(b),
        text.len() > 0 ==> filled_blocks(seq![Some(text)]) == seq![text],
        filled_blocks(seq![Some(Seq::empty())]).len() == 0,
        filled_blocks(seq![None]).len() == 0,
        turn_of(resp) matches Ok(reply) ==> {
            let message = resp.choices@[0].message;
            let first = message.reasoning_content is Some && message.reasoning_content->0@.len()
                > 0;
            let second = message.reasoning is Some && message.reasoning->0@.len() > 0;
            let rest = filled_blocks(views(message.reasoning_details@));
            &&& first && !second && rest.len() == 0 ==> reply.thinking
                == message.reasoning_content->0@
            &&& !first && second && rest.len() == 0 ==> reply.thinking == message.reasoning->0@
            &&& first && second && rest.len() == 0 ==> reply.thinking
                == message.reasoning_content->0@ + "\n"@ + message.reasoning->0@
            &&& !first && !second ==> reply.thinking == join(rest, "\n"@)
            &&& !first && !second && rest.len() == 0 ==> reply.thinking.len() == 0
        },
    decreases b.len(),
{
    reveal_with_fuel(filled_blocks, 2);
    reveal_with_fuel(join, 3);
    assert(seq![Some(text)].drop_last() =~= Seq::empty());
    assert(seq![Some(Seq::<char>::empty())].drop_last() =~= Seq::empty());
    assert(seq![None::<Seq<char>>].drop_last() =~= Seq::empty());
    if text.len() > 0 {
        assert(filled_blocks(seq![Some(text)]) =~= seq![text]);
    }
    if b.len() > 0 {
        law_thinking_is_in_order(resp, a, b.drop_last(), text);
        assert((a + b).drop_last() =~= a + b.drop_last());
        assert((a + b).last() == b.last());
        assert(filled_blocks(a + b) =~= filled_blocks(a) + filled_blocks(b));
    } else {
        assert(a + b =~= a);
        assert(filled_blocks(a + b) =~= filled_blocks(a) + filled_blocks(b));
    }
    if resp.choices@.len() > 0 {
        lemma_thinking(resp.choices@[0].message);
    }
}

proof fn lemma_thinking(message: ResponseMessage)
    ensures
        ({
            let first = message.reasoning_content is Some && message.reasoning_content->0@.len()
                > 0;
            let second = message.reasoning is Some && message.reasoning->0@.len() > 0;
            let rest = filled_blocks(views(message.reasoning_details@));
            let parts = thinking_parts(message);
            &&& first && !second && rest.len() == 0 ==> join(parts, "\n"@)
                == message.reasoning_content->0@
            &&& !first && second && rest.len() == 0 ==> join(parts, "\n"@)
                == message.reasoning->0@
            &&& first && second && rest.len() == 0 ==> join(parts, "\n"@)
                == message.reasoning_content->0@ + "\n"@ + message.reasoning->0@
            &&& !first && !second ==> parts == rest
            &&& parts.len() == 0 ==> join(parts, "\n"@).len() == 0
        }),
{
    reveal_with_fuel(join, 3);
    let first = message.reasoning_content is Some && message.reasoning_content->0@.len() > 0;
    let second = message.reasoning is Some && message.reasoning->0@.len() > 0;
    let rest = filled_blocks(views(message.reasoning_details@));
    let parts = thinking_parts(message);
    if !first && !second {
        assert(parts =~= rest);
    } else if rest.len() == 0 && first && second {
        let a = message.reasoning_content->0@;
        let b = message.reasoning->0@;
        assert(parts =~= seq![a, b]);
        assert(parts.drop_last() =~= seq![a]);
    } else if rest.len() == 0 && first {
        assert(parts =~= seq![message.reasoning_content->0@]);
    } else if rest.len() == 0 && second {
        assert(parts =~= seq![message.reasoning->0@]);
    }
}

/// Calls without an offer are refused, and reasoning tokens that are not
/// counted are none.
pub proof fn law_what_is_missing_is_nothing(
    turn: Result<ReplyView, GatewayFailure>,
    resp: ChatResponse,
    i: int,
)
    ensures
        turn matches Ok(reply) ==> (reply.tool_calls.len() > 0 ==> toolless_turn(turn) == Err::<
            ReplyView,
            GatewayFailure,
        >(GatewayFailure::ToolCallsUnsupported)),
        turn_of(resp) matches Ok(reply) ==> {
            &&& resp.usage matches Some(u) ==> (u.completion_tokens_details is None
                ==> reply.usage.reasoning_tokens == 0)
            &&& 0 <= i < reply.tool_calls.len() ==> {
                let call = resp.choices@[0].message.tool_calls@[i];
                &&& call.function is None ==> reply.tool_calls[i].name.len() == 0
                    && reply.tool_calls[i].arguments.len() == 0
                &&& call.function matches Some(f) ==> {
                    &&& f.name is None ==> reply.tool_calls[i].name.len() == 0
                    &&& f.arguments is None ==> reply.tool_calls[i].arguments.len() == 0
                }
            }
        },
{
    if resp.choices@.len() > 0 {
        let calls = resp.choices@[0].message.tool_calls@;
        if 0 <= i < calls.len() {
            assert(views(calls)[i] == calls[i]@);
        }
    }
}

} // verus!
