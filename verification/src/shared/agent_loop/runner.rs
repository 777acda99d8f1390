//! The agent loop with its turn budget and stop condition.
//!
//! Every turn is one gateway call. The tools of a turn are run one after the
//! other and their results become observations; the first answer without tool
//! calls that is not blank ends the run. Gateway failures end it too; failures
//! of tools are shown to the model, up to a number in a row.
//!
//! A run and each of its turns are state machines: the caller asks the
//! gateway, runs the tools under their time limit, and hands the outcomes in.

use vstd::prelude::*;
use crate::shared::agent_loop::context::{assemble, cap_evidence, HistoryEntry};
use crate::shared::agent_loop::registry::{ToolRegistry, ToolResult};
use crate::shared::agent_loop::synthesis::parse_answer;
use crate::shared::gateway::client::GatewayError;
use crate::shared::gateway::reply::{ChatMessage, LlmReply, RequestedToolCall, TokenUsage, ToolDef};
use crate::shared::prompts::execute::build_system_prompt;
use crate::shared::types::synthesis::{Synthesis, SynthesisSize};
use crate::text::{blank, contains_text, decimal_text, index_in, joined, same_text};
use crate::time::Duration;
#[allow(unused_imports)]
use crate::shared::agent_loop::context::{assembled, capped, law_capping_keeps_the_front,
    law_cut_evidence_says_so, EntryView};
#[allow(unused_imports)]
use crate::foreign::ArgumentsView;
#[allow(unused_imports)]
use crate::shared::agent_loop::registry::{allowed_defs, fetch_args, known_tools, live_result,
    search_args, ResultView, FETCH_TOOL_DESCRIPTION, FETCH_TOOL_NAME, SEARCH_TOOL_DESCRIPTION,
    SEARCH_TOOL_NAME};
#[allow(unused_imports)]
use crate::shared::agent_loop::synthesis::synthesis_of;
#[allow(unused_imports)]
use crate::shared::gateway::client::GatewayFailure;
#[allow(unused_imports)]
use crate::shared::gateway::reply::{no_usage, turn_view, CallView, ReplyView};
#[allow(unused_imports)]
use crate::shared::prompts::execute::{law_the_prompt_names_every_tool, system_prompt};
#[allow(unused_imports)]
use crate::shared::types::synthesis::{size_name, SynthesisView};
#[allow(unused_imports)]
use crate::text::{decimal, has_text, is_blank, join, lemma_first_index, lemma_has_middle,
    lemma_has_more, lemma_has_through, lemma_join_has, lemma_views_empty, lemma_views_push, opt_view,
    views};
#[allow(unused_imports)]
use crate::time::seconds;

verus! {

/// What a run is asked to do.
#[derive(Debug, Clone)]
pub struct LoopInput {
    /// The research goal in the user's words; not blank.
    pub goal: String,
    /// The requested size, echoed into the synthesis.
    pub size: SynthesisSize,
    /// The tools that the run may offer. An unknown name stops the run before
    /// its first turn. None at all is fine.
    pub allowed_tools: Vec<String>,
}

/// What the input of a run says.
#[verifier::ext_equal]
pub struct LoopInputView {
    pub goal: Seq<char>,
    pub size: SynthesisSize,
    pub allowed_tools: Seq<Seq<char>>,
}

impl View for LoopInput {
    type V = LoopInputView;

    open spec fn view(&self) -> LoopInputView {
        LoopInputView {
            goal: self.goal@,
            size: self.size,
            allowed_tools: views(self.allowed_tools@),
        }
    }
}

/// The limits of a run.
#[derive(Debug, Clone, Copy)]
pub struct LoopBudget {
    /// Gateway calls in all.
    pub max_turns: u32,
    /// Failure turns in a row before the run is given up.
    pub max_repairs: u32,
    /// Time limit of one tool call.
    pub tool_timeout: Duration,
    /// Longest text of one piece of evidence, in characters.
    pub max_evidence_chars: usize,
    /// Longest transcript, in characters.
    pub max_context_chars: usize,
    /// Tool calls of one turn.
    pub max_tools_per_turn: usize,
}

/// What the limits say.
#[verifier::ext_equal]
pub struct BudgetView {
    pub max_turns: u32,
    pub max_repairs: u32,
    pub tool_timeout: nat,
    pub max_evidence_chars: usize,
    pub max_context_chars: usize,
    pub max_tools_per_turn: usize,
}

impl View for LoopBudget {
    type V = BudgetView;

    open spec fn view(&self) -> BudgetView {
        BudgetView {
            max_turns: self.max_turns,
            max_repairs: self.max_repairs,
            tool_timeout: self.tool_timeout@,
            max_evidence_chars: self.max_evidence_chars,
            max_context_chars: self.max_context_chars,
            max_tools_per_turn: self.max_tools_per_turn,
        }
    }
}

/// The limits of a run where nothing else is said.
pub open spec fn default_budget() -> BudgetView {
    BudgetView {
        max_turns: 8,
        max_repairs: 2,
        tool_timeout: seconds(45),
        max_evidence_chars: 4000,
        max_context_chars: 24_000,
        max_tools_per_turn: 3,
    }
}

impl Default for LoopBudget {
    fn default() -> (r: Self)
        ensures
            r@ == default_budget(),
    {
        LoopBudget {
            max_turns: 8,
            max_repairs: 2,
            tool_timeout: Duration::from_secs(45),
            max_evidence_chars: 4000,
            max_context_chars: 24_000,
            max_tools_per_turn: 3,
        }
    }
}

/// A piece of evidence: what one tool call gave.
#[derive(Debug, Clone)]
pub struct ToolEvidence {
    /// The turn that produced it, from 1.
    pub turn: u32,
    /// The call's id; empty where the model gave none.
    pub id: String,
    /// The tool that ran.
    pub tool: String,
    /// The text, cut to the longest that is allowed.
    pub excerpt: String,
    /// The source, where the tool gave one.
    pub url: Option<String>,
}

/// What a piece of evidence says.
#[verifier::ext_equal]
pub struct EvidenceView {
    pub turn: u32,
    pub id: Seq<char>,
    pub tool: Seq<char>,
    pub excerpt: Seq<char>,
    pub url: Option<Seq<char>>,
}

impl View for ToolEvidence {
    type V = EvidenceView;

    open spec fn view(&self) -> EvidenceView {
        EvidenceView {
            turn: self.turn,
            id: self.id@,
            tool: self.tool@,
            excerpt: self.excerpt@,
            url: opt_view(self.url),
        }
    }
}

/// What a successful run reports.
#[derive(Debug, Clone)]
pub struct RunReport {
    pub synthesis: Synthesis,
    /// Gateway calls made, from 1 to the turn budget.
    pub turns_used: u32,
    /// Failure turns in the whole run.
    pub failures_used: u32,
    /// By turn, then in wire order.
    pub evidence: Vec<ToolEvidence>,
    /// The token counts of all turns together.
    pub usage: TokenUsage,
}

/// What a report says.
#[verifier::ext_equal]
pub struct ReportView {
    pub synthesis: SynthesisView,
    pub turns_used: u32,
    pub failures_used: u32,
    pub evidence: Seq<EvidenceView>,
    pub usage: TokenUsage,
}

impl View for RunReport {
    type V = ReportView;

    open spec fn view(&self) -> ReportView {
        ReportView {
            synthesis: self.synthesis@,
            turns_used: self.turns_used,
            failures_used: self.failures_used,
            evidence: views(self.evidence@),
            usage: self.usage,
        }
    }
}

/// Why a run did not end in an answer.
#[derive(Debug)]
pub enum LoopError {
    /// Before the first turn: a blank goal, an unknown tool, a missing key, an
    /// empty budget. Nothing was sent.
    NoStart(String),
    /// The gateway gave up on a turn.
    Gateway(GatewayError),
    /// Too many turns in a row whose calls could not be dispatched.
    InvalidToolCall { reason: String },
    /// Too many turns in a row whose tools failed.
    ToolFailed { reason: String },
    /// The turn budget is used up without an answer.
    BudgetExhausted { turns: u32 },
}

/// What the failure of a run says.
#[verifier::ext_equal]
pub enum LoopFailure {
    NoStart(Seq<char>),
    Gateway(GatewayFailure),
    InvalidToolCall(Seq<char>),
    ToolFailed(Seq<char>),
    BudgetExhausted(u32),
}

impl View for LoopError {
    type V = LoopFailure;

    open spec fn view(&self) -> LoopFailure {
        match *self {
            LoopError::NoStart(reason) => LoopFailure::NoStart(reason@),
            LoopError::Gateway(e) => LoopFailure::Gateway(e@),
            LoopError::InvalidToolCall { reason } => LoopFailure::InvalidToolCall(reason@),
            LoopError::ToolFailed { reason } => LoopFailure::ToolFailed(reason@),
            LoopError::BudgetExhausted { turns } => LoopFailure::BudgetExhausted(turns),
        }
    }
}

impl LoopFailure {
    /// The failure in words.
    pub open spec fn message(self) -> Seq<char> {
        match self {
            LoopFailure::NoStart(reason) => "cannot start research: "@ + reason,
            LoopFailure::Gateway(e) => "gateway turn failed: "@ + e.message(),
            LoopFailure::InvalidToolCall(reason) => "invalid tool call, repairs exhausted: "@
                + reason,
            LoopFailure::ToolFailed(reason) => "tool execution failed, repairs exhausted: "@
                + reason,
            LoopFailure::BudgetExhausted(turns) => "turn budget exhausted after "@ + decimal(
                turns as nat,
            ) + " turns with no final answer"@,
        }
    }
}

fn prefixed(head: &str, text: &str) -> (r: String)
    ensures
        r@ == head@ + text@,
{
    let mut out = head.to_owned();
    out.append(text);
    out
}

impl LoopError {
    /// The failure in words.
    pub fn to_string(&self) -> (r: String)
        ensures
            r@ == self@.message(),
    {
        match self {
            LoopError::NoStart(reason) => prefixed("cannot start research: ", reason.as_str()),
            LoopError::Gateway(e) => {
                let shown = e.to_string();
                prefixed("gateway turn failed: ", shown.as_str())
            },
            LoopError::InvalidToolCall { reason } => prefixed(
                "invalid tool call, repairs exhausted: ",
                reason.as_str(),
            ),
            LoopError::ToolFailed { reason } => prefixed(
                "tool execution failed, repairs exhausted: ",
                reason.as_str(),
            ),
            LoopError::BudgetExhausted { turns } => {
                let shown = decimal_text(*turns as u64);
                let mut text = prefixed("turn budget exhausted after ", shown.as_str());
                text.append(" turns with no final answer");
                text
            },
        }
    }
}

impl From<GatewayError> for LoopError {
    fn from(err: GatewayError) -> (r: Self) {
        LoopError::Gateway(err)
    }
}

impl vstd::std_specs::convert::FromSpecImpl<GatewayError> for LoopError {
    open spec fn obeys_from_spec() -> bool {
        true
    }

    open spec fn from_spec(err: GatewayError) -> Self {
        LoopError::Gateway(err)
    }
}

/// The tools with their purposes that are allowed, in wire order.
pub open spec fn allowed_purposes(allowed: Seq<Seq<char>>) -> Seq<(Seq<char>, Seq<char>)> {
    let first = if allowed.contains(SEARCH_TOOL_NAME@) {
        seq![(SEARCH_TOOL_NAME@, SEARCH_TOOL_DESCRIPTION@)]
    } else {
        Seq::empty()
    };
    if allowed.contains(FETCH_TOOL_NAME@) {
        first.push((FETCH_TOOL_NAME@, FETCH_TOOL_DESCRIPTION@))
    } else {
        first
    }
}

/// The tools with their purposes that are allowed, in wire order.
pub fn allowed_roster(tools: &ToolRegistry, allowed: &[String]) -> (r: Vec<
    (&'static str, &'static str),
>)
    ensures
        views(r@) == allowed_purposes(views(allowed@)),
{
    broadcast use {lemma_views_push, lemma_views_empty};

    let purposes = tools.tool_purposes();
    let ghost names = views(allowed@);
    proof {
        assert(views(purposes@).len() == 2);
        assert(views(purposes@)[0] == purposes@[0]@);
        assert(views(purposes@)[1] == purposes@[1]@);
        lemma_first_index(names, SEARCH_TOOL_NAME@);
        lemma_first_index(names, FETCH_TOOL_NAME@);
    }
    let mut out: Vec<(&'static str, &'static str)> = Vec::new();
    if index_in(allowed, purposes[0].0) < allowed.len() {
        out.push(purposes[0]);
        assert(views(out@) =~= seq![(SEARCH_TOOL_NAME@, SEARCH_TOOL_DESCRIPTION@)]);
    }
    if index_in(allowed, purposes[1].0) < allowed.len() {
        out.push(purposes[1]);
    }
    out
}

/// One tool in a footer.
pub open spec fn footer_line(tool: (Seq<char>, Seq<char>)) -> Seq<char> {
    tool.0 + " — "@ + tool.1
}

/// The allowed tools, one on a line.
pub open spec fn footer(allowed: Seq<Seq<char>>) -> Seq<char> {
    let roster = allowed_purposes(allowed);
    join(Seq::new(roster.len(), |i: int| footer_line(roster[i])), "\n"@)
}

/// The allowed tools, one on a line.
pub fn roster_footer(tools: &ToolRegistry, allowed: &[String]) -> (r: String)
    ensures
        r@ == footer(views(allowed@)),
{
    broadcast use {lemma_views_push, lemma_views_empty};

    let roster = allowed_roster(tools, allowed);
    let ghost lines = Seq::new(roster@.len(), |i: int| footer_line(views(roster@)[i]));
    let mut parts: Vec<String> = Vec::new();
    let mut i: usize = 0;
    while i < roster.len()
        invariant
            i <= roster@.len(),
            lines == Seq::new(roster@.len(), |i: int| footer_line(views(roster@)[i])),
            views(parts@) == lines.take(i as int),
        decreases roster@.len() - i,
    {
        let mut line = roster[i].0.to_owned();
        line.append(" — ");
        line.append(roster[i].1);
        let ghost so_far = views(parts@);
        parts.push(line);
        assert(views(parts@) == so_far.push(lines[i as int]));
        i += 1;
        assert(views(parts@) =~= lines.take(i as int));
    }
    assert(views(parts@) =~= lines);
    joined(parts.as_slice(), "\n")
}

/// What the model is told about a blank answer.
pub const EMPTY_ANSWER_TEXT: &'static str =
    "TOOL ERROR: empty answer — use the offered tools to gather evidence, or answer directly when evidence suffices.\nAvailable tools:\n";

/// What the model is told about a blank answer.
pub fn empty_answer_observation(tools: &ToolRegistry, allowed: &[String]) -> (r: String)
    ensures
        r@ == EMPTY_ANSWER_TEXT@ + footer(views(allowed@)),
{
    let shown = roster_footer(tools, allowed);
    prefixed(EMPTY_ANSWER_TEXT, shown.as_str())
}

/// How a call's id is shown.
pub open spec fn shown_id(id: Seq<char>) -> Seq<char> {
    if id.len() == 0 {
        "<no-id>"@
    } else {
        id
    }
}

fn display_id(id: &str) -> (r: String)
    ensures
        r@ == shown_id(id@),
{
    if id.is_empty() {
        "<no-id>".to_owned()
    } else {
        id.to_owned()
    }
}

/// The kind of failure that a turn had.
#[derive(Debug, Clone, Copy, PartialEq, Eq, Structural)]
pub enum FailureKind {
    /// A call could not be dispatched: unknown tool, bad JSON, bad arguments.
    Dispatch,
    /// A tool ran and failed, or ran out of time.
    Execution,
}

/// Whether a result says that the call could not be dispatched.
pub open spec fn undispatched(result: ResultView) -> bool {
    match result {
        ResultView::Failed { reason, .. } => has_text(reason, "unknown tool"@) || has_text(
            reason,
            "not valid JSON"@,
        ) || has_text(reason, "invalid args"@),
        _ => false,
    }
}

/// Whether a result says that the call could not be dispatched.
pub fn is_dispatch_failure(result: &ToolResult) -> (r: bool)
    ensures
        r == undispatched(result@),
{
    match result {
        ToolResult::Failed { reason, .. } => contains_text(reason.as_str(), "unknown tool")
            || contains_text(reason.as_str(), "not valid JSON") || contains_text(
            reason.as_str(),
            "invalid args",
        ),
        _ => false,
    }
}

/// What became of a call that was run.
#[derive(Debug)]
pub enum CallOutcome {
    Finished(ToolResult),
    /// The call ran out of time.
    TimedOut,
}

/// What an outcome says.
#[verifier::ext_equal]
pub enum OutcomeView {
    Finished(ResultView),
    TimedOut,
}

impl View for CallOutcome {
    type V = OutcomeView;

    open spec fn view(&self) -> OutcomeView {
        match *self {
            CallOutcome::Finished(result) => OutcomeView::Finished(result@),
            CallOutcome::TimedOut => OutcomeView::TimedOut,
        }
    }
}

/// The tool calls of one turn, run one after the other.
#[derive(Debug)]
pub struct TurnRun {
    turn: u32,
    calls: Vec<RequestedToolCall>,
    /// The tools that may be run, and the limits: those of the run.
    allowed: Vec<String>,
    budget: LoopBudget,
    /// The call that is next.
    position: usize,
    /// What the model will be shown, one row for each call.
    rows: Vec<String>,
    evidence: Vec<ToolEvidence>,
    had_success: bool,
    failure: Option<FailureKind>,
    failure_reason: String,
    /// Whether a call that could not be dispatched ended the turn.
    stopped: bool,
}

/// What a running turn holds.
#[verifier::ext_equal]
pub struct TurnView {
    pub turn: u32,
    pub calls: Seq<CallView>,
    pub allowed: Seq<Seq<char>>,
    pub budget: LoopBudget,
    pub position: nat,
    pub rows: Seq<Seq<char>>,
    pub evidence: Seq<EvidenceView>,
    pub had_success: bool,
    pub failure: Option<FailureKind>,
    pub failure_reason: Seq<char>,
    pub stopped: bool,
}

impl View for TurnRun {
    type V = TurnView;

    closed spec fn view(&self) -> TurnView {
        TurnView {
            turn: self.turn,
            calls: views(self.calls@),
            allowed: views(self.allowed@),
            budget: self.budget,
            position: self.position as nat,
            rows: views(self.rows@),
            evidence: views(self.evidence@),
            had_success: self.had_success,
            failure: self.failure,
            failure_reason: self.failure_reason@,
            stopped: self.stopped,
        }
    }
}

/// How many calls of a turn are run: at least one may be.
pub open spec fn call_cap(budget: LoopBudget) -> nat {
    if budget.max_tools_per_turn < 1 {
        1
    } else {
        budget.max_tools_per_turn as nat
    }
}

/// How many calls of a turn are looked at.
pub open spec fn considered(calls: nat, budget: LoopBudget) -> nat {
    if calls > call_cap(budget) {
        call_cap(budget)
    } else {
        calls
    }
}

/// The reason why a call to a tool that is not allowed fails.
pub open spec fn denial(name: Seq<char>, allowed: Seq<Seq<char>>) -> Seq<char> {
    "unknown tool '"@ + name + "' (available: "@ + join(allowed, ", "@) + ")"@
}

/// The row of a call that failed.
pub open spec fn failed_row(call: CallView, reason: Seq<char>) -> Seq<char> {
    "TOOL RESULTS:\n["@ + shown_id(call.id) + " "@ + call.name + " FAILED: "@ + reason + "]"@
}

/// The row of a call that worked.
pub open spec fn success_row(call: CallView, rendered: Seq<char>) -> Seq<char> {
    "TOOL RESULTS:\n["@ + shown_id(call.id) + " "@ + call.name + "("@ + call.arguments + ")]: "@
        + rendered
}

/// The reason of a call that ran out of time.
pub open spec fn timeout_reason(budget: LoopBudget) -> Seq<char> {
    "timeout after "@ + decimal(budget.tool_timeout@ / 1_000_000_000) + "s"@
}

impl TurnView {
    /// A turn before its first call.
    pub open spec fn fresh(
        turn: u32,
        calls: Seq<CallView>,
        allowed: Seq<Seq<char>>,
        budget: LoopBudget,
    ) -> TurnView {
        TurnView {
            turn,
            calls,
            allowed,
            budget,
            position: 0,
            rows: Seq::empty(),
            evidence: Seq::empty(),
            had_success: false,
            failure: None,
            failure_reason: Seq::empty(),
            stopped: false,
        }
    }

    /// Whether the turn has a call to look at.
    pub open spec fn has_next(self) -> bool {
        !self.stopped && self.position < considered(self.calls.len(), self.budget)
    }

    /// The turn after a call to a tool that is not allowed, which ends it.
    pub open spec fn denied(self) -> TurnView {
        let reason = denial(self.calls[self.position as int].name, self.allowed);
        TurnView {
            rows: self.rows.push(
                capped("TOOL ERROR: "@ + reason, self.budget.max_evidence_chars as nat),
            ),
            failure: Some(FailureKind::Dispatch),
            failure_reason: reason,
            stopped: true,
            ..self
        }
    }

    /// The evidence of the call that was just run.
    pub open spec fn piece(self, excerpt: Seq<char>, url: Option<Seq<char>>) -> EvidenceView {
        let call = self.calls[self.position as int];
        EvidenceView { turn: self.turn, id: call.id, tool: call.name, excerpt, url }
    }

    /// The turn after a call that was run. A success gives a row and
    /// evidence; a failure of the tool and a timeout do too, and are
    /// remembered; a call that could not be dispatched gives a row and ends
    /// the turn.
    pub open spec fn recorded(self, outcome: OutcomeView) -> TurnView {
        let budget = self.budget;
        let call = self.calls[self.position as int];
        let max = budget.max_evidence_chars as nat;
        let next = self.position + 1;
        match outcome {
            OutcomeView::TimedOut => TurnView {
                position: next,
                rows: self.rows.push(capped(failed_row(call, timeout_reason(budget)), max)),
                evidence: self.evidence.push(
                    self.piece(capped("TIMEOUT: "@ + timeout_reason(budget), max), None),
                ),
                failure: Some(FailureKind::Execution),
                failure_reason: timeout_reason(budget),
                ..self
            },
            OutcomeView::Finished(result) => if !(result is Failed) {
                TurnView {
                    position: next,
                    rows: self.rows.push(capped(success_row(call, result.rendered()), max)),
                    evidence: self.evidence.push(
                        self.piece(capped(result.rendered(), max), result.source()),
                    ),
                    had_success: true,
                    ..self
                }
            } else if undispatched(result) {
                TurnView {
                    position: next,
                    rows: self.rows.push(capped("TOOL ERROR: "@ + result.rendered(), max)),
                    failure: Some(FailureKind::Dispatch),
                    failure_reason: result.rendered(),
                    stopped: true,
                    ..self
                }
            } else {
                TurnView {
                    position: next,
                    rows: self.rows.push(capped(failed_row(call, result.rendered()), max)),
                    evidence: self.evidence.push(
                        self.piece(capped(result.rendered(), max), None),
                    ),
                    failure: Some(FailureKind::Execution),
                    failure_reason: result.rendered(),
                    ..self
                }
            },
        }
    }

    /// The note about the calls over the limit.
    pub open spec fn overflow_note(self) -> Seq<char> {
        let budget = self.budget;
        "[+"@ + decimal((self.calls.len() - considered(self.calls.len(), budget)) as nat)
            + " call(s) dropped: per-turn cap "@ + decimal(call_cap(budget)) + "]"@
    }

    /// The rows, with a note about the calls over the limit.
    pub open spec fn with_overflow(self) -> Seq<char> {
        let text = join(self.rows, "\n"@);
        if self.calls.len() <= considered(self.calls.len(), self.budget) {
            text
        } else if text.len() == 0 {
            "TOOL RESULTS:\n"@ + self.overflow_note()
        } else {
            text + "\n"@ + self.overflow_note()
        }
    }

    /// What the model is shown of the turn.
    pub open spec fn observation(self) -> Seq<char> {
        let text = self.with_overflow();
        if self.failure == Some(FailureKind::Dispatch) {
            text + "\nAvailable tools:\n"@ + footer(self.allowed)
        } else if self.failure is None && text.len() > 0 && !has_text(text, "TOOL RESULTS:"@) {
            "TOOL RESULTS:\n"@ + text
        } else {
            text
        }
    }
}

/// What a turn came to.
#[derive(Debug)]
pub struct TurnOutcome {
    pub observation: String,
    pub evidence: Vec<ToolEvidence>,
    pub had_success: bool,
    pub failure: Option<FailureKind>,
    pub failure_reason: String,
}

/// What the outcome of a turn says.
#[verifier::ext_equal]
pub struct TurnOutcomeView {
    pub observation: Seq<char>,
    pub evidence: Seq<EvidenceView>,
    pub had_success: bool,
    pub failure: Option<FailureKind>,
    pub failure_reason: Seq<char>,
}

impl View for TurnOutcome {
    type V = TurnOutcomeView;

    open spec fn view(&self) -> TurnOutcomeView {
        TurnOutcomeView {
            observation: self.observation@,
            evidence: views(self.evidence@),
            had_success: self.had_success,
            failure: self.failure,
            failure_reason: self.failure_reason@,
        }
    }
}

impl TurnView {
    /// What the turn came to.
    pub open spec fn outcome(self) -> TurnOutcomeView {
        TurnOutcomeView {
            observation: self.observation(),
            evidence: self.evidence,
            had_success: self.had_success,
            failure: self.failure,
            failure_reason: self.failure_reason,
        }
    }
}

fn cap_of(budget: &LoopBudget) -> (r: usize)
    ensures
        r == call_cap(*budget),
{
    if budget.max_tools_per_turn < 1 {
        1
    } else {
        budget.max_tools_per_turn
    }
}

fn considered_of(calls: usize, budget: &LoopBudget) -> (r: usize)
    ensures
        r == considered(calls as nat, *budget),
{
    let cap: usize = cap_of(budget);
    if calls > cap {
        cap
    } else {
        calls
    }
}

fn row_of_failure(call: &RequestedToolCall, reason: &str) -> (r: String)
    ensures
        r@ == failed_row(call@, reason@),
{
    let id = display_id(call.id.as_str());
    let mut text = prefixed("TOOL RESULTS:\n[", id.as_str());
    text.append(" ");
    text.append(call.name.as_str());
    text.append(" FAILED: ");
    text.append(reason);
    text.append("]");
    text
}

fn row_of_success(call: &RequestedToolCall, rendered: &str) -> (r: String)
    ensures
        r@ == success_row(call@, rendered@),
{
    let id = display_id(call.id.as_str());
    let mut text = prefixed("TOOL RESULTS:\n[", id.as_str());
    text.append(" ");
    text.append(call.name.as_str());
    text.append("(");
    text.append(call.arguments.as_str());
    text.append(")]: ");
    text.append(rendered);
    text
}

impl TurnRun {
    /// A turn before its first call.
    pub fn begin(
        turn: u32,
        calls: Vec<RequestedToolCall>,
        allowed: Vec<String>,
        budget: LoopBudget,
    ) -> (r: TurnRun)
        ensures
            r@ == TurnView::fresh(turn, views(calls@), views(allowed@), budget),
    {
        let rows: Vec<String> = Vec::new();
        let evidence: Vec<ToolEvidence> = Vec::new();
        proof {
            lemma_views_empty(rows@);
            lemma_views_empty(evidence@);
        }
        TurnRun {
            turn,
            calls,
            allowed,
            budget,
            position: 0,
            rows,
            evidence,
            had_success: false,
            failure: None,
            failure_reason: String::new(),
            stopped: false,
        }
    }

    fn push_row(&mut self, row: &str)
        ensures
            final(self)@ == (TurnView {
                rows: old(self)@.rows.push(
                    capped(row@, old(self)@.budget.max_evidence_chars as nat),
                ),
                ..old(self)@
            }),
    {
        let row = cap_evidence(row, self.budget.max_evidence_chars);
        proof {
            lemma_views_push(self.rows@, row);
        }
        self.rows.push(row);
    }

    fn push_evidence(&mut self, excerpt: &str, url: Option<String>)
        requires
            old(self)@.position < old(self)@.calls.len(),
        ensures
            final(self)@ == (TurnView {
                evidence: old(self)@.evidence.push(
                    old(self)@.piece(
                        capped(excerpt@, old(self)@.budget.max_evidence_chars as nat),
                        opt_view(url),
                    ),
                ),
                ..old(self)@
            }),
    {
        let piece = ToolEvidence {
            turn: self.turn,
            id: self.calls[self.position].id.clone(),
            tool: self.calls[self.position].name.clone(),
            excerpt: cap_evidence(excerpt, self.budget.max_evidence_chars),
            url,
        };
        proof {
            assert(views(self.calls@)[self.position as int] == self.calls@[self.position as int]@);
            lemma_views_push(self.evidence@, piece);
        }
        self.evidence.push(piece);
    }

    /// The next call to run. A call to a tool that is not allowed is denied
    /// instead, which ends the turn; calls over the limit are not looked at.
    pub fn next_call(&mut self) -> (r: Option<RequestedToolCall>)
        ensures
            ({
                let before = old(self)@;
                if !before.has_next() {
                    r is None && final(self)@ == before
                } else if before.allowed.contains(before.calls[before.position as int].name) {
                    opt_view(r) == Some(before.calls[before.position as int]) && final(self)@
                        == before
                } else {
                    r is None && final(self)@ == before.denied()
                }
            }),
    {
        if self.stopped || self.position >= considered_of(self.calls.len(), &self.budget) {
            return None;
        }
        let ghost names = views(self.allowed@);
        proof {
            assert(views(self.calls@)[self.position as int] == self.calls@[self.position as int]@);
            lemma_first_index(names, self.calls@[self.position as int].name@);
        }
        let call = self.calls[self.position].clone();
        if index_in(self.allowed.as_slice(), call.name.as_str()) < self.allowed.len() {
            return Some(call);
        }
        let mut reason = prefixed("unknown tool '", call.name.as_str());
        let list = joined(self.allowed.as_slice(), ", ");
        reason.append("' (available: ");
        reason.append(list.as_str());
        reason.append(")");
        let row = prefixed("TOOL ERROR: ", reason.as_str());
        self.push_row(row.as_str());
        self.failure = Some(FailureKind::Dispatch);
        self.failure_reason = reason;
        self.stopped = true;
        None
    }

    /// Takes in the outcome of the call that was just run.
    pub fn record(&mut self, outcome: CallOutcome)
        requires
            old(self)@.position < old(self)@.calls.len(),
        ensures
            final(self)@ == old(self)@.recorded(outcome@),
    {
        let ghost before = self@;
        proof {
            assert(views(self.calls@)[self.position as int] == self.calls@[self.position as int]@);
        }
        let total: usize = self.calls.len();
        let next: usize = self.position + 1;
        let call = self.calls[self.position].clone();
        match outcome {
            CallOutcome::TimedOut => {
                let secs = decimal_text(self.budget.tool_timeout.as_secs());
                let mut reason = prefixed("timeout after ", secs.as_str());
                reason.append("s");
                let row = row_of_failure(&call, reason.as_str());
                self.push_row(row.as_str());
                let excerpt = prefixed("TIMEOUT: ", reason.as_str());
                self.push_evidence(excerpt.as_str(), None);
                self.failure = Some(FailureKind::Execution);
                self.failure_reason = reason;
            },
            CallOutcome::Finished(result) => {
                let rendered = result.render();
                if result.is_success() {
                    let row = row_of_success(&call, rendered.as_str());
                    self.push_row(row.as_str());
                    let url = result.url();
                    self.push_evidence(rendered.as_str(), url);
                    self.had_success = true;
                } else if is_dispatch_failure(&result) {
                    let row = prefixed("TOOL ERROR: ", rendered.as_str());
                    self.push_row(row.as_str());
                    self.failure = Some(FailureKind::Dispatch);
                    self.failure_reason = rendered;
                    self.stopped = true;
                } else {
                    let row = row_of_failure(&call, rendered.as_str());
                    self.push_row(row.as_str());
                    self.push_evidence(rendered.as_str(), None);
                    self.failure = Some(FailureKind::Execution);
                    self.failure_reason = rendered;
                }
            },
        }
        self.position = next;
    }

    /// Closes the turn.
    pub fn finish(self, tools: &ToolRegistry) -> (r: TurnOutcome)
        ensures
            r@ == self@.outcome(),
    {
        let cap: usize = cap_of(&self.budget);
        let looked_at: usize = considered_of(self.calls.len(), &self.budget);
        let mut text = joined(self.rows.as_slice(), "\n");
        if self.calls.len() > looked_at {
            let dropped = decimal_text((self.calls.len() - looked_at) as u64);
            let limit = decimal_text(cap as u64);
            let mut note = prefixed("[+", dropped.as_str());
            note.append(" call(s) dropped: per-turn cap ");
            note.append(limit.as_str());
            note.append("]");
            if text.as_str().is_empty() {
                text = prefixed("TOOL RESULTS:\n", note.as_str());
            } else {
                text.append("\n");
                text.append(note.as_str());
            }
        }
        assert(text@ == self@.with_overflow());
        match self.failure {
            Some(FailureKind::Dispatch) => {
                let shown = roster_footer(tools, self.allowed.as_slice());
                text.append("\nAvailable tools:\n");
                text.append(shown.as_str());
            },
            Some(FailureKind::Execution) => {},
            None => {
                if !text.as_str().is_empty() && !contains_text(text.as_str(), "TOOL RESULTS:") {
                    text = prefixed("TOOL RESULTS:\n", text.as_str());
                }
            },
        }
        TurnOutcome {
            observation: text,
            evidence: self.evidence,
            had_success: self.had_success,
            failure: self.failure,
            failure_reason: self.failure_reason,
        }
    }
}

/// A run between two gateway calls.
#[derive(Debug)]
pub struct LoopRun {
    input: LoopInput,
    budget: LoopBudget,
    system_prompt: String,
    /// The turn that is next, from 1.
    turn: u32,
    history: Vec<HistoryEntry>,
    evidence: Vec<ToolEvidence>,
    usage: TokenUsage,
    /// Failure turns in a row.
    consecutive_failures: u32,
    /// Failure turns in all.
    failures_used: u32,
}

/// What a run holds.
#[verifier::ext_equal]
pub struct LoopView {
    pub input: LoopInputView,
    pub budget: LoopBudget,
    pub system_prompt: Seq<char>,
    pub turn: u32,
    pub history: Seq<EntryView>,
    pub evidence: Seq<EvidenceView>,
    pub usage: TokenUsage,
    pub consecutive_failures: u32,
    pub failures_used: u32,
}

impl View for LoopRun {
    type V = LoopView;

    closed spec fn view(&self) -> LoopView {
        LoopView {
            input: self.input@,
            budget: self.budget,
            system_prompt: self.system_prompt@,
            turn: self.turn,
            history: views(self.history@),
            evidence: views(self.evidence@),
            usage: self.usage,
            consecutive_failures: self.consecutive_failures,
            failures_used: self.failures_used,
        }
    }
}

/// Token counts together, each up to the largest number.
pub open spec fn added(a: u64, b: u64) -> u64 {
    if a + b > u64::MAX {
        u64::MAX
    } else {
        (a + b) as u64
    }
}

/// Token counts together.
pub open spec fn usage_sum(a: TokenUsage, b: TokenUsage) -> TokenUsage {
    TokenUsage {
        prompt_tokens: added(a.prompt_tokens, b.prompt_tokens),
        completion_tokens: added(a.completion_tokens, b.completion_tokens),
        total_tokens: added(a.total_tokens, b.total_tokens),
        reasoning_tokens: added(a.reasoning_tokens, b.reasoning_tokens),
    }
}

/// A transcript after what the assistant said; nothing is added for silence.
pub open spec fn with_output(history: Seq<EntryView>, output: Seq<char>) -> Seq<EntryView> {
    if output.len() == 0 {
        history
    } else {
        history.push(EntryView::Assistant(output))
    }
}

/// What a run does next.
#[derive(Debug)]
pub enum LoopStep {
    /// Ask the gateway again.
    Ask(LoopRun),
    /// Run the tools of this turn; the text is what the assistant said.
    Dispatch(LoopRun, TurnRun, String),
    Done(Result<RunReport, LoopError>),
}

/// What a step says.
#[verifier::ext_equal]
pub enum StepView {
    Ask(LoopView),
    Dispatch(LoopView, TurnView, Seq<char>),
    Done(Result<ReportView, LoopFailure>),
}

impl View for LoopStep {
    type V = StepView;

    open spec fn view(&self) -> StepView {
        match *self {
            LoopStep::Ask(run) => StepView::Ask(run@),
            LoopStep::Dispatch(run, turn, output) => StepView::Dispatch(run@, turn@, output@),
            LoopStep::Done(outcome) => StepView::Done(
                match outcome {
                    Ok(report) => Ok(report@),
                    Err(e) => Err(e@),
                },
            ),
        }
    }
}

/// The first allowed tool that is not known.
pub open spec fn first_unknown(allowed: Seq<Seq<char>>) -> Option<Seq<char>>
    decreases allowed.len(),
{
    if allowed.len() == 0 {
        None
    } else if known_tools().contains(allowed[0]) {
        first_unknown(allowed.drop_first())
    } else {
        Some(allowed[0])
    }
}

/// Why a run cannot start, if it cannot.
pub open spec fn no_start(input: LoopInputView, budget: LoopBudget) -> Option<Seq<char>> {
    if is_blank(input.goal) {
        Some("research goal is empty"@)
    } else {
        match first_unknown(input.allowed_tools) {
            Some(name) => Some("unknown tool: "@ + name),
            None => if budget.max_turns < 1 {
                Some("max_turns must be >= 1"@)
            } else if budget.max_context_chars < 1 {
                Some("max_context_chars must be >= 1"@)
            } else {
                None
            },
        }
    }
}

/// A run before its first turn.
pub open spec fn first_state(input: LoopInputView, budget: LoopBudget) -> LoopView {
    LoopView {
        input,
        budget,
        system_prompt: system_prompt(allowed_purposes(input.allowed_tools), input.size),
        turn: 1,
        history: Seq::empty(),
        evidence: Seq::empty(),
        usage: no_usage(),
        consecutive_failures: 0,
        failures_used: 0,
    }
}

impl LoopView {
    /// What holds of every run: it is within its turns, failed at most once
    /// in each turn behind it, and never more often in a row than it may.
    pub open spec fn well_formed(self) -> bool {
        &&& 1 <= self.turn <= self.budget.max_turns
        &&& self.failures_used < self.turn
        &&& self.consecutive_failures <= self.failures_used
        &&& self.consecutive_failures <= self.budget.max_repairs
    }

    /// The run in its next turn; or the end of the budget.
    pub open spec fn advanced(self) -> StepView {
        if self.turn >= self.budget.max_turns {
            StepView::Done(Err(LoopFailure::BudgetExhausted(self.turn)))
        } else {
            StepView::Ask(LoopView { turn: (self.turn + 1) as u32, ..self })
        }
    }

    /// What follows a gateway call. A failure ends the run, and a missing key
    /// in the first turn means that it never started. Tool calls are run. An
    /// answer that is not blank ends the run; a blank one is a failure turn.
    pub open spec fn after_reply(self, reply: Result<ReplyView, GatewayFailure>) -> StepView {
        match reply {
            Err(e) => if e is MissingApiKey && self.turn == 1 {
                StepView::Done(Err(LoopFailure::NoStart("GATEWAY_API_KEY is not set"@)))
            } else {
                StepView::Done(Err(LoopFailure::Gateway(e)))
            },
            Ok(reply) => {
                let usage = usage_sum(self.usage, reply.usage);
                let counted = LoopView { usage, ..self };
                if reply.tool_calls.len() > 0 {
                    StepView::Dispatch(
                        counted,
                        TurnView::fresh(
                            self.turn,
                            reply.tool_calls,
                            self.input.allowed_tools,
                            self.budget,
                        ),
                        reply.output,
                    )
                } else if !is_blank(reply.output) {
                    StepView::Done(
                        Ok(
                            ReportView {
                                synthesis: synthesis_of(reply.output, self.input.size),
                                turns_used: self.turn,
                                failures_used: self.failures_used,
                                evidence: self.evidence,
                                usage,
                            },
                        ),
                    )
                } else if self.consecutive_failures + 1 > self.budget.max_repairs {
                    StepView::Done(Err(LoopFailure::InvalidToolCall("empty answer"@)))
                } else {
                    LoopView {
                        usage,
                        consecutive_failures: (self.consecutive_failures + 1) as u32,
                        failures_used: (self.failures_used + 1) as u32,
                        history: with_output(self.history, reply.output).push(
                            EntryView::Observation(
                                EMPTY_ANSWER_TEXT@ + footer(self.input.allowed_tools),
                            ),
                        ),
                        ..self
                    }.advanced()
                }
            },
        }
    }

    /// What follows a turn of tool calls. Its evidence and observation are
    /// kept. A success ends a row of failures; a turn with a failure counts,
    /// and counts in the row unless it had a success too.
    pub open spec fn after_turn(self, output: Seq<char>, outcome: TurnOutcomeView) -> StepView {
        let kept = LoopView {
            evidence: self.evidence + outcome.evidence,
            history: with_output(self.history, output).push(
                EntryView::Observation(outcome.observation),
            ),
            ..self
        };
        let row: int = if outcome.had_success {
            0
        } else if outcome.failure is Some {
            self.consecutive_failures + 1
        } else {
            self.consecutive_failures as int
        };
        if outcome.failure is Some && row > self.budget.max_repairs {
            StepView::Done(
                Err(
                    match outcome.failure->0 {
                        FailureKind::Dispatch => LoopFailure::InvalidToolCall(
                            outcome.failure_reason,
                        ),
                        FailureKind::Execution => LoopFailure::ToolFailed(outcome.failure_reason),
                    },
                ),
            )
        } else {
            LoopView {
                consecutive_failures: row as u32,
                failures_used: if outcome.failure is Some {
                    (self.failures_used + 1) as u32
                } else {
                    self.failures_used
                },
                ..kept
            }.advanced()
        }
    }
}

impl StepView {
    /// Whether the run that a step carries, if any, is well formed.
    pub open spec fn well_formed(self) -> bool {
        match self {
            StepView::Ask(next) => next.well_formed(),
            StepView::Dispatch(same, _, _) => same.well_formed(),
            StepView::Done(_) => true,
        }
    }
}

fn unknown_tool(tools: &ToolRegistry, allowed: &Vec<String>) -> (r: Option<String>)
    ensures
        opt_view(r) == first_unknown(views(allowed@)),
{
    let names = tools.tool_names();
    let ghost all = views(allowed@);
    proof {
        assert(views(names@).len() == 2);
        assert(views(names@)[0] == names@[0]@);
        assert(views(names@)[1] == names@[1]@);
    }
    let mut i: usize = 0;
    assert(all.skip(0) =~= all);
    while i < allowed.len()
        invariant
            i <= allowed@.len(),
            all == views(allowed@),
            names@.len() == 2,
            names@[0]@ == known_tools()[0],
            names@[1]@ == known_tools()[1],
            first_unknown(all) == first_unknown(all.skip(i as int)),
        decreases allowed@.len() - i,
    {
        assert(all.skip(i as int)[0] == allowed@[i as int]@);
        assert(all.skip(i as int).drop_first() =~= all.skip(i + 1));
        let name = allowed[i].as_str();
        if !same_text(name, names[0]) && !same_text(name, names[1]) {
            assert(!known_tools().contains(name@));
            return Some(allowed[i].clone());
        }
        proof {
            if name@ == known_tools()[0] {
                assert(known_tools().contains(name@));
            } else {
                assert(known_tools()[1] == name@);
                assert(known_tools().contains(name@));
            }
        }
        i += 1;
    }
    None
}

fn push_output(history: &mut Vec<HistoryEntry>, output: &String)
    ensures
        views(final(history)@) == with_output(views(old(history)@), output@),
{
    if !output.as_str().is_empty() {
        let entry = HistoryEntry::Assistant(output.clone());
        proof {
            lemma_views_push(history@, entry);
        }
        history.push(entry);
    }
}

fn push_observation(history: &mut Vec<HistoryEntry>, text: String)
    ensures
        views(final(history)@) == views(old(history)@).push(EntryView::Observation(text@)),
{
    let entry = HistoryEntry::Observation(text);
    proof {
        lemma_views_push(history@, entry);
    }
    history.push(entry);
}

fn add_usage(a: TokenUsage, b: TokenUsage) -> (r: TokenUsage)
    ensures
        r == usage_sum(a, b),
{
    TokenUsage {
        prompt_tokens: a.prompt_tokens.saturating_add(b.prompt_tokens),
        completion_tokens: a.completion_tokens.saturating_add(b.completion_tokens),
        total_tokens: a.total_tokens.saturating_add(b.total_tokens),
        reasoning_tokens: a.reasoning_tokens.saturating_add(b.reasoning_tokens),
    }
}

fn copies(names: &Vec<String>) -> (r: Vec<String>)
    ensures
        views(r@) == views(names@),
{
    broadcast use {lemma_views_push, lemma_views_empty};

    let ghost all = views(names@);
    let mut out: Vec<String> = Vec::new();
    let mut i: usize = 0;
    while i < names.len()
        invariant
            i <= names@.len(),
            all == views(names@),
            views(out@) =~= all.take(i as int),
        decreases names@.len() - i,
    {
        let name = names[i].clone();
        assert(all.take(i as int).push(name@) =~= all.take(i + 1));
        out.push(name);
        i += 1;
    }
    assert(all.take(i as int) =~= all);
    out
}

fn push_all_evidence(out: &mut Vec<ToolEvidence>, more: Vec<ToolEvidence>)
    ensures
        views(final(out)@) == views(old(out)@) + views(more@),
{
    let ghost before = out@;
    let ghost extra = more@;
    let mut rest = more;
    out.append(&mut rest);
    assert(views(out@) =~= views(before) + views(extra));
}

impl LoopRun {
    /// Starts a run. A blank goal, an unknown tool and an empty budget are
    /// refused before anything is sent.
    pub fn start(tools: &ToolRegistry, input: LoopInput, budget: LoopBudget) -> (r: Result<
        LoopRun,
        LoopError,
    >)
        ensures
            match r {
                Ok(run) => no_start(input@, budget) is None && run@ == first_state(input@, budget)
                    && run@.well_formed(),
                Err(e) => no_start(input@, budget) is Some && e@ == LoopFailure::NoStart(
                    no_start(input@, budget)->0,
                ),
            },
    {
        if blank(input.goal.as_str()) {
            return Err(LoopError::NoStart("research goal is empty".to_owned()));
        }
        match unknown_tool(tools, &input.allowed_tools) {
            Some(name) => {
                return Err(LoopError::NoStart(prefixed("unknown tool: ", name.as_str())));
            },
            None => {},
        }
        if budget.max_turns < 1 {
            return Err(LoopError::NoStart("max_turns must be >= 1".to_owned()));
        }
        if budget.max_context_chars < 1 {
            return Err(LoopError::NoStart("max_context_chars must be >= 1".to_owned()));
        }
        let roster = allowed_roster(tools, input.allowed_tools.as_slice());
        let system_prompt = build_system_prompt(roster.as_slice(), input.size);
        let history: Vec<HistoryEntry> = Vec::new();
        let evidence: Vec<ToolEvidence> = Vec::new();
        proof {
            lemma_views_empty(history@);
            lemma_views_empty(evidence@);
        }
        Ok(
            LoopRun {
                input,
                budget,
                system_prompt,
                turn: 1,
                history,
                evidence,
                usage: TokenUsage::default(),
                consecutive_failures: 0,
                failures_used: 0,
            },
        )
    }

    /// The turn that is next, from 1.
    pub fn turn(&self) -> (r: u32)
        ensures
            r == self@.turn,
    {
        self.turn
    }

    /// The messages to ask the gateway with.
    pub fn messages(&self) -> (r: Vec<ChatMessage>)
        ensures
            views(r@) == assembled(
                self@.system_prompt,
                self@.input,
                self@.history,
                self@.budget.max_context_chars as nat,
            ),
    {
        assemble(self.system_prompt.as_str(), &self.input, self.history.as_slice(), &self.budget)
    }

    /// The tools to offer. None means that the turn offers no tools at all.
    pub fn tool_defs(&self, tools: &ToolRegistry) -> (r: Option<Vec<ToolDef>>)
        ensures
            ({
                let defs = allowed_defs(self@.input.allowed_tools);
                match r {
                    Some(offered) => views(offered@) == defs && defs.len() > 0,
                    None => defs.len() == 0,
                }
            }),
    {
        let defs = tools.tool_defs(self.input.allowed_tools.as_slice());
        assert(views(defs@).len() == defs@.len());
        if defs.is_empty() {
            None
        } else {
            Some(defs)
        }
    }

    fn advance(self) -> (r: LoopStep)
        ensures
            r@ == self@.advanced(),
    {
        if self.turn >= self.budget.max_turns {
            LoopStep::Done(Err(LoopError::BudgetExhausted { turns: self.turn }))
        } else {
            let mut next = self;
            next.turn = next.turn + 1;
            LoopStep::Ask(next)
        }
    }

    /// Goes on after a gateway call.
    pub fn on_reply(self, tools: &ToolRegistry, reply: Result<LlmReply, GatewayError>) -> (r:
        LoopStep)
        requires
            self@.well_formed(),
        ensures
            r@ == self@.after_reply(turn_view(reply)),
            r@.well_formed(),
    {
        let ghost before = self@;
        let reply = match reply {
            Ok(reply) => reply,
            Err(e) => {
                match &e {
                    GatewayError::MissingApiKey => {
                        if self.turn == 1 {
                            return LoopStep::Done(
                                Err(
                                    LoopError::NoStart("GATEWAY_API_KEY is not set".to_owned()),
                                ),
                            );
                        }
                    },
                    _ => {},
                }
                return LoopStep::Done(Err(LoopError::Gateway(e)));
            },
        };
        let ghost rv = reply@;
        assert(rv.tool_calls.len() == reply.tool_calls@.len());
        let mut run = self;
        run.usage = add_usage(run.usage, reply.usage);
        if reply.tool_calls.len() > 0 {
            let allowed = copies(&run.input.allowed_tools);
            let turn = TurnRun::begin(run.turn, reply.tool_calls, allowed, run.budget);
            return LoopStep::Dispatch(run, turn, reply.output);
        }
        match parse_answer(reply.output.as_str(), run.input.size) {
            Ok(synthesis) => LoopStep::Done(
                Ok(
                    RunReport {
                        synthesis,
                        turns_used: run.turn,
                        failures_used: run.failures_used,
                        evidence: run.evidence,
                        usage: run.usage,
                    },
                ),
            ),
            Err(_) => {
                if run.consecutive_failures >= run.budget.max_repairs {
                    return LoopStep::Done(
                        Err(LoopError::InvalidToolCall { reason: "empty answer".to_owned() }),
                    );
                }
                run.consecutive_failures = run.consecutive_failures + 1;
                run.failures_used = run.failures_used + 1;
                let observation = empty_answer_observation(
                    tools,
                    run.input.allowed_tools.as_slice(),
                );
                push_output(&mut run.history, &reply.output);
                push_observation(&mut run.history, observation);
                run.advance()
            },
        }
    }

    /// Goes on after a turn of tool calls.
    pub fn on_turn(self, output: String, outcome: TurnOutcome) -> (r: LoopStep)
        requires
            self@.well_formed(),
        ensures
            r@ == self@.after_turn(output@, outcome@),
            r@.well_formed(),
    {
        let ghost before = self@;
        let mut run = self;
        push_all_evidence(&mut run.evidence, outcome.evidence);
        push_output(&mut run.history, &output);
        push_observation(&mut run.history, outcome.observation);
        if outcome.had_success {
            run.consecutive_failures = 0;
        }
        match outcome.failure {
            Some(kind) => {
                if !outcome.had_success {
                    run.consecutive_failures = run.consecutive_failures + 1;
                }
                run.failures_used = run.failures_used + 1;
                if run.consecutive_failures > run.budget.max_repairs {
                    let reason = outcome.failure_reason;
                    return LoopStep::Done(
                        Err(
                            match kind {
                                FailureKind::Dispatch => LoopError::InvalidToolCall { reason },
                                FailureKind::Execution => LoopError::ToolFailed { reason },
                            },
                        ),
                    );
                }
            },
            None => {},
        }
        run.advance()
    }
}

/// Whether evidence stands in the order of its turns, none after `turn`.
pub open spec fn in_turn_order(evidence: Seq<EvidenceView>, turn: int) -> bool {
    &&& forall|i: int, j: int|
        0 <= i <= j < evidence.len() ==> (#[trigger] evidence[i]).turn <= (
        #[trigger] evidence[j]).turn
    &&& forall|i: int| 0 <= i < evidence.len() ==> 1 <= (#[trigger] evidence[i]).turn <= turn
}

/// What a gateway call may lead to: the next turn, the tools of this turn, or
/// the end. The run stays well formed, keeps its task, and moves on by exactly
/// one turn for one call. A report says how many turns and failures it took,
/// within the budget.
pub proof fn law_one_gateway_call_is_one_turn(
    run: LoopView,
    reply: Result<ReplyView, GatewayFailure>,
)
    requires
        run.well_formed(),
    ensures
        match run.after_reply(reply) {
            StepView::Ask(next) => {
                &&& next.well_formed()
                &&& next.turn == run.turn + 1
                &&& next.input == run.input && next.budget == run.budget && next.system_prompt
                    == run.system_prompt
                &&& next.evidence == run.evidence
                &&& next.failures_used == run.failures_used + 1
            },
            StepView::Dispatch(same, turn, output) => {
                &&& same.well_formed()
                &&& same.turn == run.turn && turn.turn == run.turn
                &&& same.input == run.input && same.budget == run.budget && same.system_prompt
                    == run.system_prompt
                &&& same.evidence == run.evidence && same.history == run.history
                &&& turn.calls.len() > 0
                &&& turn.allowed == run.input.allowed_tools && turn.budget == run.budget
            },
            StepView::Done(Ok(report)) => {
                &&& 1 <= report.turns_used <= run.budget.max_turns
                &&& report.turns_used == run.turn
                &&& report.failures_used < report.turns_used
                &&& report.synthesis.size == run.input.size
                &&& report.evidence == run.evidence
            },
            StepView::Done(Err(_)) => true,
        },
{
}

/// A turn of tool calls leads to the next turn or the end, never to an
/// answer. The run stays well formed, keeps its task, and has the evidence of
/// the turn behind what it had.
pub proof fn law_tool_turns_keep_the_run_going(
    run: LoopView,
    output: Seq<char>,
    outcome: TurnOutcomeView,
)
    requires
        run.well_formed(),
    ensures
        match run.after_turn(output, outcome) {
            StepView::Ask(next) => {
                &&& next.well_formed()
                &&& next.turn == run.turn + 1
                &&& next.input == run.input && next.budget == run.budget && next.system_prompt
                    == run.system_prompt
                &&& next.evidence == run.evidence + outcome.evidence
                &&& next.usage == run.usage
                &&& outcome.had_success ==> next.consecutive_failures == 0
            },
            StepView::Dispatch(_, _, _) => false,
            StepView::Done(Ok(_)) => false,
            StepView::Done(Err(_)) => true,
        },
{
}

/// What holds of every running turn: it looks at no more calls than it may,
/// gives at most one row and one piece of evidence for each, all evidence
/// names the turn, and a failure that ended it was one of dispatch.
pub open spec fn turn_ok(t: TurnView) -> bool {
    &&& t.position <= considered(t.calls.len(), t.budget) <= call_cap(t.budget)
    &&& t.rows.len() <= t.position + (if t.stopped {
        1int
    } else {
        0int
    })
    &&& t.evidence.len() <= t.position
    &&& t.stopped ==> t.failure == Some(FailureKind::Dispatch)
    &&& forall|i: int| 0 <= i < t.evidence.len() ==> (#[trigger] t.evidence[i]).turn == t.turn
}

/// A fresh turn is in order, and denying or recording a call keeps it so.
pub proof fn law_turns_stay_in_order(t: TurnView, outcome: OutcomeView)
    requires
        turn_ok(t),
        t.has_next(),
    ensures
        turn_ok(t.denied()),
        turn_ok(t.recorded(outcome)),
        turn_ok(TurnView::fresh(t.turn, t.calls, t.allowed, t.budget)),
        !t.denied().has_next(),
        t.recorded(outcome).position == t.position + 1,
        t.evidence.is_prefix_of(t.recorded(outcome).evidence),
{
    let r = t.recorded(outcome);
    assert forall|i: int| 0 <= i < r.evidence.len() implies (#[trigger] r.evidence[i]).turn
        == r.turn by {
        if i < t.evidence.len() {
            assert(r.evidence[i] == t.evidence[i]);
        }
    }
    assert(t.evidence.is_prefix_of(r.evidence)) by {
        assert(r.evidence.subrange(0, t.evidence.len() as int) =~= t.evidence);
    }
}

/// The evidence of a run stands in the order of the turns that gave it, and
/// stays so when a turn's evidence comes in.
pub proof fn law_evidence_stays_in_turn_order(
    run: LoopView,
    turn: TurnView,
    output: Seq<char>,
)
    requires
        run.well_formed(),
        in_turn_order(run.evidence, run.turn - 1),
        turn.turn == run.turn,
        turn_ok(turn),
    ensures
        match run.after_turn(output, turn.outcome()) {
            StepView::Ask(next) => in_turn_order(next.evidence, next.turn - 1),
            _ => true,
        },
{
    let all = run.evidence + turn.evidence;
    assert forall|i: int, j: int| 0 <= i <= j < all.len() implies (#[trigger] all[i]).turn <= (
    #[trigger] all[j]).turn by {
        if j < run.evidence.len() {
            assert(all[i] == run.evidence[i] && all[j] == run.evidence[j]);
        } else {
            assert(all[j] == turn.evidence[j - run.evidence.len()]);
            if i < run.evidence.len() {
                assert(all[i] == run.evidence[i]);
            } else {
                assert(all[i] == turn.evidence[i - run.evidence.len()]);
            }
        }
    }
    assert forall|i: int| 0 <= i < all.len() implies 1 <= (#[trigger] all[i]).turn
        <= run.turn by {
        if i < run.evidence.len() {
            assert(all[i] == run.evidence[i]);
        } else {
            assert(all[i] == turn.evidence[i - run.evidence.len()]);
        }
    }
}

/// A run gives up on failing turns as soon as there are more in a row than it
/// may repair, and never before.
pub proof fn law_failures_are_bounded(run: LoopView, output: Seq<char>, outcome: TurnOutcomeView)
    requires
        run.well_formed(),
        outcome.failure is Some,
    ensures
        ({
            let step = run.after_turn(output, outcome);
            let given_up = step matches StepView::Done(Err(e)) && (e is InvalidToolCall
                || e is ToolFailed);
            given_up <==> !outcome.had_success && run.consecutive_failures
                == run.budget.max_repairs
        }),
{
}

/// One turn as the outside world answers it: the reply of the gateway, and
/// what a tool call at each position comes to if it is run.
pub struct Exchange {
    pub reply: Result<ReplyView, GatewayFailure>,
    pub answers: spec_fn(nat) -> OutcomeView,
}

impl TurnView {
    /// The turn when all its calls have been looked at.
    pub open spec fn played(self, answers: spec_fn(nat) -> OutcomeView) -> TurnView
        decreases considered(self.calls.len(), self.budget) - self.position,
    {
        if !self.has_next() {
            self
        } else if !self.allowed.contains(self.calls[self.position as int].name) {
            self.denied()
        } else {
            self.recorded(answers(self.position)).played(answers)
        }
    }

    /// The calls that are run from here on, in order.
    pub open spec fn calls_run(self, answers: spec_fn(nat) -> OutcomeView) -> Seq<CallView>
        decreases considered(self.calls.len(), self.budget) - self.position,
    {
        if !self.has_next() || !self.allowed.contains(self.calls[self.position as int].name) {
            Seq::empty()
        } else {
            seq![self.calls[self.position as int]] + self.recorded(
                answers(self.position),
            ).calls_run(answers)
        }
    }
}

/// What a run came to after some turns.
pub struct RunTrace {
    /// The run in its next turn, or its end.
    pub step: StepView,
    /// How often the gateway was called.
    pub gateway_calls: nat,
    /// The tool calls that were run, in order.
    pub tools_run: Seq<CallView>,
}

impl LoopView {
    /// What follows one turn, from the gateway call to the last tool call.
    pub open spec fn after_exchange(self, turn: Exchange) -> StepView {
        match self.after_reply(turn.reply) {
            StepView::Dispatch(same, calls, output) => same.after_turn(
                output,
                calls.played(turn.answers).outcome(),
            ),
            step => step,
        }
    }

    /// The tool calls that one turn runs.
    pub open spec fn run_in_exchange(self, turn: Exchange) -> Seq<CallView> {
        match self.after_reply(turn.reply) {
            StepView::Dispatch(same, calls, output) => calls.calls_run(turn.answers),
            _ => Seq::empty(),
        }
    }

    /// The whole run, turn after turn until it ends or the turns are over.
    pub open spec fn traced(self, turns: Seq<Exchange>) -> RunTrace
        decreases turns.len(),
    {
        if turns.len() == 0 {
            RunTrace { step: StepView::Ask(self), gateway_calls: 0, tools_run: Seq::empty() }
        } else {
            match self.after_exchange(turns[0]) {
                StepView::Ask(next) => {
                    let rest = next.traced(turns.drop_first());
                    RunTrace {
                        step: rest.step,
                        gateway_calls: rest.gateway_calls + 1,
                        tools_run: self.run_in_exchange(turns[0]) + rest.tools_run,
                    }
                },
                step => RunTrace {
                    step,
                    gateway_calls: 1,
                    tools_run: self.run_in_exchange(turns[0]),
                },
            }
        }
    }
}

/// The tokens of one reply; a failed call has none.
pub open spec fn reply_usage(reply: Result<ReplyView, GatewayFailure>) -> TokenUsage {
    match reply {
        Ok(reply) => reply.usage,
        Err(_) => no_usage(),
    }
}

/// One kind of token, counted over all replies.
pub open spec fn tokens_of(turns: Seq<Exchange>, kind: spec_fn(TokenUsage) -> u64) -> nat
    decreases turns.len(),
{
    if turns.len() == 0 {
        0
    } else {
        (kind(reply_usage(turns[0].reply)) + tokens_of(turns.drop_first(), kind)) as nat
    }
}

/// A count up to the largest number.
pub open spec fn limited(n: nat) -> u64 {
    if n > u64::MAX {
        u64::MAX
    } else {
        n as u64
    }
}

/// The tokens of all replies on top of a start, each count up to the largest
/// number.
pub open spec fn usage_over(start: TokenUsage, turns: Seq<Exchange>) -> TokenUsage {
    TokenUsage {
        prompt_tokens: limited(
            start.prompt_tokens as nat + tokens_of(turns, |u: TokenUsage| u.prompt_tokens),
        ),
        completion_tokens: limited(
            start.completion_tokens as nat + tokens_of(turns, |u: TokenUsage| u.completion_tokens),
        ),
        total_tokens: limited(
            start.total_tokens as nat + tokens_of(turns, |u: TokenUsage| u.total_tokens),
        ),
        reasoning_tokens: limited(
            start.reasoning_tokens as nat + tokens_of(turns, |u: TokenUsage| u.reasoning_tokens),
        ),
    }
}

proof fn lemma_usage_over(start: TokenUsage, turns: Seq<Exchange>)
    requires
        turns.len() > 0,
    ensures
        usage_over(usage_sum(start, reply_usage(turns[0].reply)), turns.drop_first())
            == usage_over(start, turns),
{
    reveal_with_fuel(tokens_of, 2);
}

proof fn lemma_played(t: TurnView, answers: spec_fn(nat) -> OutcomeView)
    requires
        turn_ok(t),
    ensures
        turn_ok(t.played(answers)),
        t.played(answers).turn == t.turn,
        t.played(answers).allowed == t.allowed,
        t.played(answers).budget == t.budget,
        !t.played(answers).has_next(),
        t.calls_run(answers).len() <= considered(t.calls.len(), t.budget) - t.position,
        forall|i: int|
            0 <= i < t.calls_run(answers).len() ==> t.allowed.contains(
                (#[trigger] t.calls_run(answers)[i]).name,
            ),
    decreases considered(t.calls.len(), t.budget) - t.position,
{
    if t.has_next() {
        law_turns_stay_in_order(t, answers(t.position));
        let call = t.calls[t.position as int];
        if t.allowed.contains(call.name) {
            let next = t.recorded(answers(t.position));
            lemma_played(next, answers);
            let rest = next.calls_run(answers);
            assert forall|i: int| 0 <= i < t.calls_run(answers).len() implies t.allowed.contains(
                (#[trigger] t.calls_run(answers)[i]).name,
            ) by {
                if i > 0 {
                    assert(t.calls_run(answers)[i] == rest[i - 1]);
                }
            }
        }
    }
}

/// What one turn leads to.
proof fn lemma_exchange(run: LoopView, turn: Exchange)
    requires
        run.well_formed(),
    ensures
        match run.after_exchange(turn) {
            StepView::Ask(next) => {
                &&& next.well_formed()
                &&& next.turn == run.turn + 1
                &&& next.input == run.input && next.budget == run.budget
                &&& next.usage == usage_sum(run.usage, reply_usage(turn.reply))
                &&& in_turn_order(run.evidence, run.turn - 1) ==> in_turn_order(
                    next.evidence,
                    next.turn - 1,
                )
            },
            StepView::Dispatch(_, _, _) => false,
            StepView::Done(Ok(report)) => {
                &&& report.turns_used == run.turn
                &&& report.failures_used < report.turns_used
                &&& report.usage == usage_sum(run.usage, reply_usage(turn.reply))
                &&& report.evidence == run.evidence
                &&& report.synthesis.size == run.input.size
            },
            StepView::Done(Err(LoopFailure::BudgetExhausted(turns))) => turns == run.turn
                && turns == run.budget.max_turns,
            StepView::Done(Err(_)) => true,
        },
        run.run_in_exchange(turn).len() <= call_cap(run.budget),
        forall|i: int|
            0 <= i < run.run_in_exchange(turn).len() ==> run.input.allowed_tools.contains(
                (#[trigger] run.run_in_exchange(turn)[i]).name,
            ),
{
    law_one_gateway_call_is_one_turn(run, turn.reply);
    match run.after_reply(turn.reply) {
        StepView::Dispatch(same, calls, output) => {
            lemma_played(calls, turn.answers);
            law_tool_turns_keep_the_run_going(same, output, calls.played(turn.answers).outcome());
            if in_turn_order(run.evidence, run.turn - 1) {
                law_evidence_stays_in_turn_order(same, calls.played(turn.answers), output);
            }
        },
        _ => {},
    }
}

proof fn lemma_trace(run: LoopView, turns: Seq<Exchange>)
    requires
        run.well_formed(),
        in_turn_order(run.evidence, run.turn - 1),
    ensures
        ({
            let trace = run.traced(turns);
            let n = trace.gateway_calls;
            &&& n <= turns.len()
            &&& run.turn + n <= run.budget.max_turns + 1
            &&& match trace.step {
                StepView::Ask(next) => n == turns.len() && next.turn == run.turn + n
                    && next.well_formed() && next.budget == run.budget,
                StepView::Dispatch(_, _, _) => false,
                StepView::Done(Ok(report)) => {
                    &&& n > 0
                    &&& report.turns_used == run.turn + n - 1
                    &&& report.failures_used < report.turns_used
                    &&& report.usage == usage_over(run.usage, turns.take(n as int))
                    &&& in_turn_order(report.evidence, report.turns_used - 1)
                    &&& report.synthesis.size == run.input.size
                },
                StepView::Done(Err(LoopFailure::BudgetExhausted(used))) => used
                    == run.budget.max_turns && used == run.turn + n - 1,
                StepView::Done(Err(_)) => n > 0,
            }
            &&& trace.tools_run.len() <= n * call_cap(run.budget)
            &&& forall|i: int|
                0 <= i < trace.tools_run.len() ==> run.input.allowed_tools.contains(
                    (#[trigger] trace.tools_run[i]).name,
                )
        }),
    decreases turns.len(),
{
    let trace = run.traced(turns);
    if turns.len() == 0 {
        assert(0 * call_cap(run.budget) == 0);
    } else {
        let n = trace.gateway_calls;
        let first = run.run_in_exchange(turns[0]);
        lemma_exchange(run, turns[0]);
        assert(1 * call_cap(run.budget) == call_cap(run.budget));
        match run.after_exchange(turns[0]) {
            StepView::Ask(next) => {
                let later = turns.drop_first();
                lemma_trace(next, later);
                let rest = next.traced(later);
                let m = rest.gateway_calls;
                assert(turns.take(n as int).drop_first() =~= later.take(m as int));
                if n > 0 {
                    lemma_usage_over(run.usage, turns.take(n as int));
                }
                assert((m + 1) * call_cap(run.budget) == m * call_cap(run.budget) + call_cap(
                    run.budget,
                )) by (nonlinear_arith);
                assert forall|i: int| 0 <= i < trace.tools_run.len() implies
                    run.input.allowed_tools.contains((#[trigger] trace.tools_run[i]).name) by {
                    if i < first.len() {
                        assert(trace.tools_run[i] == first[i]);
                    } else {
                        assert(trace.tools_run[i] == rest.tools_run[i - first.len()]);
                    }
                }
            },
            _ => {
                let one = turns.take(1);
                lemma_usage_over(run.usage, one);
                assert(one.drop_first() =~= Seq::<Exchange>::empty());
                reveal_with_fuel(tokens_of, 2);
            },
        }
    }
}

/// A run ends, whatever the gateway and the tools answer: it calls the gateway
/// at most `max_turns` times, and after that many calls it is done. It gives up
/// for want of turns only when all of them are used.
pub proof fn law_runs_end_within_their_turns(
    input: LoopInputView,
    budget: LoopBudget,
    turns: Seq<Exchange>,
)
    requires
        no_start(input, budget) is None,
    ensures
        ({
            let trace = first_state(input, budget).traced(turns);
            &&& trace.gateway_calls <= budget.max_turns
            &&& turns.len() >= budget.max_turns ==> trace.step is Done
            &&& !(trace.step is Dispatch)
            &&& trace.step matches StepView::Done(Err(LoopFailure::BudgetExhausted(used))) ==> used
                == budget.max_turns && trace.gateway_calls == used
        }),
{
    lemma_trace(first_state(input, budget), turns);
}

/// The report of a run adds up: it has taken as many turns as there were
/// gateway calls, fewer of them failed, its tokens are those of all replies
/// together, and its evidence stands in the order of the turns before the
/// answer.
pub proof fn law_reports_add_up(input: LoopInputView, budget: LoopBudget, turns: Seq<Exchange>)
    requires
        no_start(input, budget) is None,
    ensures
        ({
            let trace = first_state(input, budget).traced(turns);
            trace.step matches StepView::Done(Ok(report)) ==> {
                &&& report.turns_used == trace.gateway_calls
                &&& report.failures_used < report.turns_used
                &&& report.usage == usage_over(
                    no_usage(),
                    turns.take(trace.gateway_calls as int),
                )
                &&& in_turn_order(report.evidence, report.turns_used - 1)
                &&& report.synthesis.size == input.size
            }
        }),
{
    lemma_trace(first_state(input, budget), turns);
}

/// Whatever the model asks for, a run runs no tool that is not allowed, and not
/// more calls than its limit for one turn allows for all its turns.
pub proof fn law_only_allowed_tools_are_run(
    input: LoopInputView,
    budget: LoopBudget,
    turns: Seq<Exchange>,
)
    requires
        no_start(input, budget) is None,
    ensures
        ({
            let trace = first_state(input, budget).traced(turns);
            &&& forall|i: int|
                0 <= i < trace.tools_run.len() ==> input.allowed_tools.contains(
                    (#[trigger] trace.tools_run[i]).name,
                )
            &&& trace.tools_run.len() <= trace.gateway_calls * call_cap(budget)
        }),
{
    lemma_trace(first_state(input, budget), turns);
}

/// The transcript only grows. A tool turn adds what the assistant said, if it
/// said anything, and behind it the observation of the turn; an answer that is
/// blank adds an observation likewise. Nothing that stood there is changed.
pub proof fn law_the_transcript_only_grows(
    run: LoopView,
    reply: Result<ReplyView, GatewayFailure>,
    output: Seq<char>,
    outcome: TurnOutcomeView,
)
    ensures
        run.after_turn(output, outcome) matches StepView::Ask(next) ==> {
            let n = run.history.len() as int;
            &&& run.history.is_prefix_of(next.history)
            &&& output.len() > 0 ==> next.history.len() == n + 2 && next.history[n]
                == EntryView::Assistant(output) && next.history[n + 1] == EntryView::Observation(
                outcome.observation,
            )
            &&& output.len() == 0 ==> next.history.len() == n + 1 && next.history[n]
                == EntryView::Observation(outcome.observation)
        },
        run.after_reply(reply) matches StepView::Ask(next) ==> {
            let n = run.history.len() as int;
            &&& run.history.is_prefix_of(next.history)
            &&& reply matches Ok(said) && {
                &&& said.output.len() > 0 ==> next.history.len() == n + 2 && next.history[n]
                    == EntryView::Assistant(said.output)
                &&& said.output.len() == 0 ==> next.history.len() == n + 1
            }
            &&& next.history.last() is Observation
        },
        run.after_reply(reply) matches StepView::Dispatch(same, _, _) ==> same.history
            == run.history,
{
    let n = run.history.len() as int;
    if let StepView::Ask(next) = run.after_turn(output, outcome) {
        assert(next.history.subrange(0, n) =~= run.history);
    }
    if let StepView::Ask(next) = run.after_reply(reply) {
        assert(next.history.subrange(0, n) =~= run.history);
    }
}

/// The number of observations in a transcript.
pub open spec fn observations(history: Seq<EntryView>) -> nat
    decreases history.len(),
{
    if history.len() == 0 {
        0
    } else if history.last() is Observation {
        observations(history.drop_last()) + 1
    } else {
        observations(history.drop_last())
    }
}

proof fn lemma_observations_push(history: Seq<EntryView>, e: EntryView)
    ensures
        observations(history.push(e)) == observations(history) + if e is Observation {
            1nat
        } else {
            0nat
        },
{
    assert(history.push(e).drop_last() =~= history);
}

proof fn lemma_exchange_adds_one_observation(run: LoopView, turn: Exchange)
    ensures
        run.after_exchange(turn) matches StepView::Ask(next) ==> run.history.is_prefix_of(
            next.history,
        ) && observations(next.history) == observations(run.history) + 1,
{
    match run.after_reply(turn.reply) {
        StepView::Dispatch(same, calls, output) => {
            let outcome = calls.played(turn.answers).outcome();
            law_the_transcript_only_grows(same, turn.reply, output, outcome);
            lemma_observations_push(same.history, EntryView::Assistant(output));
            lemma_observations_push(
                with_output(same.history, output),
                EntryView::Observation(outcome.observation),
            );
        },
        StepView::Ask(next) => {
            let said = turn.reply->Ok_0.output;
            law_the_transcript_only_grows(
                run,
                turn.reply,
                said,
                arbitrary(),
            );
            lemma_observations_push(run.history, EntryView::Assistant(said));
            lemma_observations_push(
                with_output(run.history, said),
                EntryView::Observation(EMPTY_ANSWER_TEXT@ + footer(run.input.allowed_tools)),
            );
        },
        _ => {},
    }
}

/// A run forgets nothing: after any number of turns its transcript holds one
/// observation for each, and what it held after fewer turns is where it was.
pub proof fn law_runs_forget_nothing(run: LoopView, turns: Seq<Exchange>, k: int)
    requires
        0 <= k <= turns.len(),
        run.traced(turns).step is Ask,
    ensures
        ({
            let next = run.traced(turns).step->Ask_0;
            &&& observations(next.history) == observations(run.history) + turns.len()
            &&& run.traced(turns.take(k)).step matches StepView::Ask(mid)
                && mid.history.is_prefix_of(next.history) && observations(mid.history)
                == observations(run.history) + k
        }),
    decreases turns.len(),
{
    let next = run.traced(turns).step->Ask_0;
    if turns.len() == 0 {
        assert(turns.take(k) =~= turns);
        assert(run.history.subrange(0, run.history.len() as int) =~= run.history);
    } else {
        lemma_exchange_adds_one_observation(run, turns[0]);
        let after = run.after_exchange(turns[0])->Ask_0;
        let rest = turns.drop_first();
        if k > 0 {
            law_runs_forget_nothing(after, rest, k - 1);
            assert(turns.take(k)[0] == turns[0]);
            assert(turns.take(k).drop_first() =~= rest.take(k - 1));
        } else {
            law_runs_forget_nothing(after, rest, 0);
            assert(rest.take(0) =~= Seq::<Exchange>::empty());
            assert(turns.take(0) =~= Seq::<Exchange>::empty());
            let a = run.history;
            let b = after.history;
            let c = next.history;
            assert(c.subrange(0, a.len() as int) =~= c.subrange(0, b.len() as int).subrange(
                0,
                a.len() as int,
            ));
            assert(a.is_prefix_of(c));
        }
    }
}

/// What a reply leads to. Tool calls are run, all that came and in their order;
/// an answer without calls that is not blank ends the run and is what the
/// report is read from; a blank one is a failure, and a failed gateway call
/// ends the run with that failure.
pub proof fn law_replies_lead_where_they_say(
    run: LoopView,
    reply: Result<ReplyView, GatewayFailure>,
)
    ensures
        reply matches Ok(said) ==> {
            &&& said.tool_calls.len() > 0 <==> run.after_reply(reply) is Dispatch
            &&& run.after_reply(reply) matches StepView::Dispatch(_, turn, output) ==> turn.calls
                == said.tool_calls && turn.turn == run.turn && turn.position == 0 && output
                == said.output
            &&& said.tool_calls.len() == 0 && !is_blank(said.output) <==> (run.after_reply(
                reply,
            ) matches StepView::Done(Ok(_)))
            &&& run.after_reply(reply) matches StepView::Done(Ok(report)) ==> report.synthesis
                == synthesis_of(said.output, run.input.size) && report.evidence == run.evidence
                && report.turns_used == run.turn
            &&& said.tool_calls.len() == 0 && is_blank(said.output) && run.consecutive_failures
                >= run.budget.max_repairs ==> (run.after_reply(reply) matches StepView::Done(
                Err(LoopFailure::InvalidToolCall(_)),
            ))
            &&& said.tool_calls.len() == 0 && is_blank(said.output) && run.consecutive_failures
                < run.budget.max_repairs && run.turn >= run.budget.max_turns ==> run.after_reply(
                reply,
            ) == StepView::Done(Err(LoopFailure::BudgetExhausted(run.turn)))
        },
        reply matches Err(e) ==> (run.after_reply(reply) matches StepView::Done(Err(failure)) && {
            ||| failure == LoopFailure::Gateway(e)
            ||| e is MissingApiKey && run.turn == 1 && failure is NoStart
        }),
{
}

/// How a tool turn counts. A turn without a failure leaves the counts, but a
/// success sets the row of failures back; a turn that failed counts once, and
/// in the row only if nothing in it succeeded.
pub proof fn law_failures_count_once(run: LoopView, output: Seq<char>, outcome: TurnOutcomeView)
    requires
        run.well_formed(),
    ensures
        run.after_turn(output, outcome) matches StepView::Ask(next) ==> {
            &&& outcome.failure is Some ==> next.failures_used == run.failures_used + 1
            &&& outcome.failure is None ==> next.failures_used == run.failures_used
            &&& outcome.had_success ==> next.consecutive_failures == 0
            &&& !outcome.had_success && outcome.failure is Some ==> next.consecutive_failures
                == run.consecutive_failures + 1
            &&& !outcome.had_success && outcome.failure is None ==> next.consecutive_failures
                == run.consecutive_failures
        },
        run.after_turn(output, outcome) matches StepView::Done(Err(failure)) ==> {
            ||| failure == LoopFailure::BudgetExhausted(run.turn)
            ||| outcome.failure == Some(FailureKind::Dispatch) && failure
                == LoopFailure::InvalidToolCall(outcome.failure_reason)
            ||| outcome.failure == Some(FailureKind::Execution) && failure
                == LoopFailure::ToolFailed(outcome.failure_reason)
        },
        outcome.failure is None && run.turn < run.budget.max_turns ==> run.after_turn(
            output,
            outcome,
        ) is Ask,
{
}

/// What a tool gave is kept: a row for the model that names the tool, its
/// arguments and what came out, and a piece of evidence with the same text and
/// the source. What is too long is cut behind the first characters.
pub proof fn law_results_are_kept(t: TurnView, result: ResultView)
    requires
        t.position < t.calls.len(),
        !(result is Failed),
    ensures
        ({
            let call = t.calls[t.position as int];
            let after = t.recorded(OutcomeView::Finished(result));
            let max = t.budget.max_evidence_chars;
            let row = after.rows.last();
            let piece = after.evidence.last();
            &&& after.position == t.position + 1 && after.had_success && after.failure == t.failure
            &&& after.stopped == t.stopped
            &&& after.rows.len() == t.rows.len() + 1 && t.rows.is_prefix_of(after.rows)
            &&& after.evidence.len() == t.evidence.len() + 1 && t.evidence.is_prefix_of(
                after.evidence,
            )
            &&& row.len() <= max ==> result.rendered().is_suffix_of(row) && has_text(
                row,
                call.name,
            ) && has_text(row, call.arguments)
            &&& piece.turn == t.turn && piece.id == call.id && piece.tool == call.name && piece.url
                == result.source()
            &&& result.rendered().len() <= max ==> piece.excerpt == result.rendered()
            &&& result.rendered().len() > max ==> result.rendered().take(
                max as int,
            ).is_prefix_of(piece.excerpt)
        }),
{
    let call = t.calls[t.position as int];
    let after = t.recorded(OutcomeView::Finished(result));
    let max = t.budget.max_evidence_chars as nat;
    let shown = result.rendered();
    let a = "TOOL RESULTS:\n["@ + shown_id(call.id) + " "@;
    let b = "("@;
    let c = ")]: "@;
    let row = success_row(call, shown);
    assert(row =~= a + call.name + (b + call.arguments + c + shown));
    lemma_has_middle(a, call.name, b + call.arguments + c + shown);
    assert(row =~= a + call.name + b + call.arguments + (c + shown));
    lemma_has_middle(a + call.name + b, call.arguments, c + shown);
    assert(row.subrange(row.len() - shown.len(), row.len() as int) =~= shown);
    law_capping_keeps_the_front(row, max);
    law_capping_keeps_the_front(shown, max);
    assert(after.rows.subrange(0, t.rows.len() as int) =~= t.rows);
    assert(after.evidence.subrange(0, t.evidence.len() as int) =~= t.evidence);
    if shown.len() > max {
        law_cut_evidence_says_so(shown, max);
    }
}

/// What a tool did not give is kept too: a row that names the tool and the
/// reason, and the failure of the turn. A call that could not be dispatched
/// ends the turn and is no evidence; one that failed or ran out of time is
/// evidence without a source, and the turn goes on.
pub proof fn law_failures_are_kept(t: TurnView, outcome: OutcomeView)
    requires
        t.position < t.calls.len(),
        outcome matches OutcomeView::Finished(result) ==> result is Failed,
    ensures
        ({
            let call = t.calls[t.position as int];
            let after = t.recorded(outcome);
            let ended = outcome matches OutcomeView::Finished(result) && undispatched(result);
            let row = after.rows.last();
            &&& after.position == t.position + 1 && after.had_success == t.had_success
            &&& after.rows.len() == t.rows.len() + 1 && t.rows.is_prefix_of(after.rows)
            &&& ended ==> after.stopped && after.failure == Some(FailureKind::Dispatch)
                && after.evidence == t.evidence
            &&& !ended ==> after.stopped == t.stopped && after.failure == Some(
                FailureKind::Execution,
            ) && after.evidence.len() == t.evidence.len() + 1 && after.evidence.last().url is None
                && after.evidence.last().tool == call.name && after.evidence.last().turn == t.turn
            &&& row.len() <= t.budget.max_evidence_chars ==> has_text(row, after.failure_reason)
            &&& row.len() <= t.budget.max_evidence_chars && !ended ==> has_text(row, call.name)
            &&& outcome matches OutcomeView::Finished(result) ==> after.failure_reason
                == result.rendered()
        }),
{
    let call = t.calls[t.position as int];
    let after = t.recorded(outcome);
    let max = t.budget.max_evidence_chars as nat;
    let reason = after.failure_reason;
    let a = "TOOL RESULTS:\n["@ + shown_id(call.id) + " "@;
    let b = " FAILED: "@;
    let row = failed_row(call, reason);
    assert(row =~= a + call.name + (b + reason + "]"@));
    lemma_has_middle(a, call.name, b + reason + "]"@);
    lemma_has_middle(a + call.name + b, reason, "]"@);
    law_capping_keeps_the_front(row, max);
    let told = "TOOL ERROR: "@ + reason;
    lemma_has_middle("TOOL ERROR: "@, reason, Seq::empty());
    law_capping_keeps_the_front(told, max);
    assert(after.rows.subrange(0, t.rows.len() as int) =~= t.rows);
}

/// A tool that is not allowed is told so: the row names it, and each tool that
/// is allowed stands in the observation.
pub proof fn law_denials_name_the_tool(t: TurnView)
    requires
        t.position < t.calls.len(),
    ensures
        ({
            let after = t.denied();
            let name = t.calls[t.position as int].name;
            &&& after.stopped && after.failure == Some(FailureKind::Dispatch)
            &&& after.evidence == t.evidence && after.had_success == t.had_success
            &&& has_text(after.failure_reason, name)
            &&& forall|i: int|
                0 <= i < t.allowed.len() ==> has_text(
                    after.failure_reason,
                    #[trigger] t.allowed[i],
                )
            &&& after.rows.len() == t.rows.len() + 1
            &&& after.rows.last().len() <= t.budget.max_evidence_chars ==> has_text(
                after.rows.last(),
                after.failure_reason,
            )
        }),
{
    let after = t.denied();
    let name = t.calls[t.position as int].name;
    let a = "unknown tool '"@;
    let b = "' (available: "@;
    let list = join(t.allowed, ", "@);
    let reason = denial(name, t.allowed);
    assert(reason =~= a + name + (b + list + ")"@));
    lemma_has_middle(a, name, b + list + ")"@);
    lemma_has_middle(a + name + b, list, ")"@);
    assert forall|i: int| 0 <= i < t.allowed.len() implies has_text(
        reason,
        #[trigger] t.allowed[i],
    ) by {
        lemma_join_has(t.allowed, ", "@, i);
        lemma_has_through(reason, list, t.allowed[i]);
    }
    lemma_has_middle("TOOL ERROR: "@, reason, Seq::empty());
    law_capping_keeps_the_front("TOOL ERROR: "@ + reason, t.budget.max_evidence_chars as nat);
}

proof fn lemma_note_has_the_number(t: TurnView)
    ensures
        has_text(
            t.overflow_note(),
            decimal((t.calls.len() - considered(t.calls.len(), t.budget)) as nat),
        ),
{
    let d = decimal((t.calls.len() - considered(t.calls.len(), t.budget)) as nat);
    let words = " call(s) dropped: per-turn cap "@;
    lemma_has_middle("[+"@, d, words);
    lemma_has_more("[+"@ + d + words, decimal(call_cap(t.budget)), d);
    lemma_has_more("[+"@ + d + words + decimal(call_cap(t.budget)), "]"@, d);
}

proof fn lemma_rows_are_seen(t: TurnView, part: Seq<char>)
    requires
        has_text(join(t.rows, "\n"@), part),
    ensures
        has_text(t.with_overflow(), part),
{
    let rows = join(t.rows, "\n"@);
    let note = t.overflow_note();
    if t.calls.len() > considered(t.calls.len(), t.budget) {
        if rows.len() == 0 {
            let text = t.with_overflow();
            let k = choose|k: int| crate::text::occurs_at(rows, part, k);
            assert(part.len() == 0);
            assert(text.subrange(0, 0) =~= part);
            assert(crate::text::occurs_at(text, part, 0));
        } else {
            lemma_has_more(rows, "\n"@, part);
            lemma_has_more(rows + "\n"@, note, part);
        }
    }
}

proof fn lemma_note_is_seen(t: TurnView)
    requires
        t.calls.len() > considered(t.calls.len(), t.budget),
    ensures
        has_text(t.with_overflow(), t.overflow_note()),
{
    let rows = join(t.rows, "\n"@);
    lemma_has_middle("TOOL RESULTS:\n"@, t.overflow_note(), Seq::empty());
    lemma_has_middle(rows + "\n"@, t.overflow_note(), Seq::empty());
}

proof fn lemma_text_is_seen(t: TurnView, part: Seq<char>)
    requires
        has_text(t.with_overflow(), part),
    ensures
        has_text(t.observation(), part),
{
    let text = t.with_overflow();
    if t.failure == Some(FailureKind::Dispatch) {
        lemma_has_more(text, "\nAvailable tools:\n"@, part);
        lemma_has_more(text + "\nAvailable tools:\n"@, footer(t.allowed), part);
    } else {
        lemma_has_middle("TOOL RESULTS:\n"@, text, Seq::empty());
        if t.observation() != text {
            lemma_has_through(t.observation(), text, part);
        }
    }
}

/// The model sees the whole turn: its observation holds every row, the number
/// of calls that were dropped, and after a failed dispatch every tool that is
/// allowed.
pub proof fn law_the_model_sees_the_whole_turn(t: TurnView, i: int)
    ensures
        0 <= i < t.rows.len() ==> has_text(t.outcome().observation, t.rows[i]),
        t.calls.len() > call_cap(t.budget) ==> has_text(
            t.outcome().observation,
            decimal((t.calls.len() - call_cap(t.budget)) as nat),
        ),
        t.failure == Some(FailureKind::Dispatch) ==> has_text(
            t.outcome().observation,
            footer(t.allowed),
        ),
        t.outcome().evidence == t.evidence,
        t.outcome().had_success == t.had_success,
        t.outcome().failure == t.failure,
        t.outcome().failure_reason == t.failure_reason,
{
    let d = decimal((t.calls.len() - considered(t.calls.len(), t.budget)) as nat);
    if 0 <= i < t.rows.len() {
        lemma_join_has(t.rows, "\n"@, i);
        lemma_rows_are_seen(t, t.rows[i]);
        lemma_text_is_seen(t, t.rows[i]);
    }
    if t.calls.len() > considered(t.calls.len(), t.budget) {
        lemma_note_has_the_number(t);
        lemma_note_is_seen(t);
        lemma_has_through(t.with_overflow(), t.overflow_note(), d);
        lemma_text_is_seen(t, d);
    }
    lemma_has_middle(
        t.with_overflow() + "\nAvailable tools:\n"@,
        footer(t.allowed),
        Seq::empty(),
    );
}

/// Whether the call at this position would be run and could be dispatched.
pub open spec fn goes_through(t: TurnView, answers: spec_fn(nat) -> OutcomeView, k: nat) -> bool {
    t.allowed.contains(t.calls[k as int].name) && !(answers(k) matches OutcomeView::Finished(
        result,
    ) && undispatched(result))
}

proof fn lemma_recorded_shape(t: TurnView, outcome: OutcomeView)
    ensures
        ({
            let next = t.recorded(outcome);
            &&& next.position == t.position + 1
            &&& next.calls == t.calls && next.allowed == t.allowed && next.budget == t.budget
            &&& next.stopped == (t.stopped || (outcome matches OutcomeView::Finished(result)
                && undispatched(result)))
        }),
{
}

/// The calls of a turn are run in their order from the first on, none left out
/// and no more than the limit; where each is allowed and none fails to be
/// dispatched, as many as the limit allows.
pub proof fn law_calls_are_run_in_order(t: TurnView, answers: spec_fn(nat) -> OutcomeView)
    requires
        t.position <= t.calls.len(),
    ensures
        ({
            let n = t.calls_run(answers).len();
            let from = t.position as int;
            &&& from + n <= t.calls.len()
            &&& t.calls_run(answers) == t.calls.subrange(from, from + n)
            &&& n == 0 || from + n <= call_cap(t.budget)
            &&& (!t.stopped && forall|k: nat|
                t.position <= k < t.calls.len() ==> #[trigger] goes_through(t, answers, k)) ==> from
                + n >= t.calls.len() || from + n >= call_cap(t.budget)
        }),
    decreases considered(t.calls.len(), t.budget) - t.position,
{
    let from = t.position as int;
    let ran = t.calls_run(answers);
    if t.has_next() && t.allowed.contains(t.calls[from].name) {
        let next = t.recorded(answers(t.position));
        lemma_recorded_shape(t, answers(t.position));
        law_calls_are_run_in_order(next, answers);
        let rest = next.calls_run(answers);
        assert(ran == seq![t.calls[from]] + rest);
        assert(ran =~= t.calls.subrange(from, from + ran.len()));
        if !t.stopped && forall|k: nat|
            t.position <= k < t.calls.len() ==> #[trigger] goes_through(t, answers, k) {
            assert(goes_through(t, answers, t.position));
            assert forall|k: nat| next.position <= k < next.calls.len() implies
                #[trigger] goes_through(next, answers, k) by {
                assert(goes_through(t, answers, k));
            }
        }
    } else {
        assert(ran =~= t.calls.subrange(from, from));
        if t.has_next() {
            assert(goes_through(t, answers, t.position) ==> t.allowed.contains(
                t.calls[from].name,
            ));
        }
    }
}

/// A run starts exactly when it can: with a goal, with tools that are known,
/// and with room for a turn and a transcript. It starts at its first turn with
/// nothing behind it, and with a prompt that names every tool it may use.
pub proof fn law_runs_start_from_nothing(input: LoopInputView, budget: LoopBudget)
    ensures
        no_start(input, budget) is None <==> !is_blank(input.goal) && (forall|i: int|
            0 <= i < input.allowed_tools.len() ==> (#[trigger] input.allowed_tools[i]) == "search"@
                || input.allowed_tools[i] == "fetch"@) && budget.max_turns >= 1
            && budget.max_context_chars >= 1,
        ({
            let run = first_state(input, budget);
            &&& run.input == input && run.budget == budget && run.turn == 1
            &&& run.history.len() == 0 && run.evidence.len() == 0
            &&& run.consecutive_failures == 0 && run.failures_used == 0
            &&& run.usage.prompt_tokens == 0 && run.usage.completion_tokens == 0
            &&& run.usage.total_tokens == 0 && run.usage.reasoning_tokens == 0
            &&& forall|i: int|
                0 <= i < input.allowed_tools.len() && no_start(input, budget) is None ==> has_text(
                    run.system_prompt,
                    #[trigger] input.allowed_tools[i],
                )
            &&& has_text(run.system_prompt, size_name(input.size))
        }),
{
    lemma_first_unknown(input.allowed_tools);
    let roster = allowed_purposes(input.allowed_tools);
    law_the_prompt_names_every_tool(roster, input.size);
    let run = first_state(input, budget);
    assert forall|i: int|
        0 <= i < input.allowed_tools.len() && no_start(input, budget) is None implies has_text(
        run.system_prompt,
        #[trigger] input.allowed_tools[i],
    ) by {
        let name = input.allowed_tools[i];
        assert(input.allowed_tools.contains(name));
        let k: int = if name == SEARCH_TOOL_NAME@ {
            0
        } else {
            roster.len() - 1
        };
        assert(roster[k].0 == name);
    }
}

proof fn lemma_first_unknown(allowed: Seq<Seq<char>>)
    ensures
        first_unknown(allowed) is None <==> forall|i: int|
            0 <= i < allowed.len() ==> (#[trigger] allowed[i]) == "search"@ || allowed[i]
                == "fetch"@,
    decreases allowed.len(),
{
    let known = known_tools();
    assert(known[0] == "search"@ && known[1] == "fetch"@);
    assert forall|name: Seq<char>| known.contains(name) <==> name == "search"@ || name
        == "fetch"@ by {
        if known.contains(name) {
            let k = choose|k: int| 0 <= k < known.len() && known[k] == name;
        }
    }
    if allowed.len() > 0 {
        let rest = allowed.drop_first();
        lemma_first_unknown(rest);
        if first_unknown(allowed) is None {
            assert forall|i: int| 0 <= i < allowed.len() implies (#[trigger] allowed[i])
                == "search"@ || allowed[i] == "fetch"@ by {
                if i > 0 {
                    assert(rest[i - 1] == allowed[i]);
                }
            }
        } else if known.contains(allowed[0]) {
            let i = choose|i: int|
                0 <= i < rest.len() && !((#[trigger] rest[i]) == "search"@ || rest[i]
                    == "fetch"@);
            assert(allowed[i + 1] == rest[i]);
        }
    }
}

/// What ended a run is told to the end: the reason is the end of the message,
/// and the turns of a spent budget are named.
pub proof fn law_endings_tell_their_reason(failure: LoopFailure)
    ensures
        match failure {
            LoopFailure::NoStart(reason) => reason.is_suffix_of(failure.message()),
            LoopFailure::Gateway(e) => e.message().is_suffix_of(failure.message()),
            LoopFailure::InvalidToolCall(reason) => reason.is_suffix_of(failure.message()),
            LoopFailure::ToolFailed(reason) => reason.is_suffix_of(failure.message()),
            LoopFailure::BudgetExhausted(turns) => has_text(
                failure.message(),
                decimal(turns as nat),
            ),
        },
{
    let m = failure.message();
    match failure {
        LoopFailure::NoStart(reason) => {
            assert(m.skip(m.len() - reason.len()) =~= reason);
        },
        LoopFailure::Gateway(e) => {
            assert(m.skip(m.len() - e.message().len()) =~= e.message());
        },
        LoopFailure::InvalidToolCall(reason) => {
            assert(m.skip(m.len() - reason.len()) =~= reason);
        },
        LoopFailure::ToolFailed(reason) => {
            assert(m.skip(m.len() - reason.len()) =~= reason);
        },
        LoopFailure::BudgetExhausted(turns) => {
            lemma_has_middle(
                "turn budget exhausted after "@,
                decimal(turns as nat),
                " turns with no final answer"@,
            );
        },
    }
}

/// A failed dispatch is told by its reason: any of the three phrases in it
/// makes it one, and a result that did not fail is none.
pub proof fn law_failed_dispatches_are_told(
    tool: Seq<char>,
    before: Seq<char>,
    after: Seq<char>,
    result: ResultView,
)
    ensures
        undispatched(ResultView::Failed { tool, reason: before + "unknown tool"@ + after }),
        undispatched(ResultView::Failed { tool, reason: before + "not valid JSON"@ + after }),
        undispatched(ResultView::Failed { tool, reason: before + "invalid args"@ + after }),
        !(result is Failed) ==> !undispatched(result),
        !before.contains('n') ==> !undispatched(ResultView::Failed { tool, reason: before }),
{
    lemma_has_middle(before, "unknown tool"@, after);
    lemma_has_middle(before, "not valid JSON"@, after);
    lemma_has_middle(before, "invalid args"@, after);
    reveal_strlit("unknown tool");
    reveal_strlit("not valid JSON");
    reveal_strlit("invalid args");
    lemma_holds_its_letters(before, "unknown tool"@, 1);
    lemma_holds_its_letters(before, "not valid JSON"@, 0);
    lemma_holds_its_letters(before, "invalid args"@, 1);
}

proof fn lemma_holds_its_letters(s: Seq<char>, needle: Seq<char>, k: int)
    requires
        0 <= k < needle.len(),
    ensures
        has_text(s, needle) ==> s.contains(needle[k]),
{
    if has_text(s, needle) {
        let i = choose|i: int| crate::text::occurs_at(s, needle, i);
        assert(s[i + k] == s.subrange(i, i + needle.len())[k]);
    }
}

/// At most as many calls are run as the budget allows for one turn, and one in
/// any case; all are taken into account while there are no more than that.
pub proof fn law_the_budget_limits_the_calls(calls: nat, budget: LoopBudget)
    ensures
        budget.max_tools_per_turn >= 1 ==> call_cap(budget) == budget.max_tools_per_turn,
        budget.max_tools_per_turn == 0 ==> call_cap(budget) == 1,
        calls <= call_cap(budget) ==> considered(calls, budget) == calls,
        calls > call_cap(budget) ==> considered(calls, budget) == call_cap(budget),
{
}

/// A row begins with the id of its call, so that the model can tell the
/// answers apart; a call without an id is shown to have none.
pub proof fn law_rows_tell_their_call(t: TurnView, outcome: OutcomeView)
    requires
        t.position < t.calls.len(),
        !(outcome matches OutcomeView::Finished(result) && undispatched(result)),
    ensures
        ({
            let call = t.calls[t.position as int];
            let row = t.recorded(outcome).rows.last();
            let head = "TOOL RESULTS:\n["@ + if call.id.len() == 0 {
                "<no-id>"@
            } else {
                call.id
            } + " "@ + call.name;
            row.len() <= t.budget.max_evidence_chars ==> head.is_prefix_of(row)
        }),
{
    let call = t.calls[t.position as int];
    let head = "TOOL RESULTS:\n["@ + shown_id(call.id) + " "@ + call.name;
    let max = t.budget.max_evidence_chars as nat;
    match outcome {
        OutcomeView::TimedOut => {
            lemma_failed_row_head(call, timeout_reason(t.budget));
            law_capping_keeps_the_front(failed_row(call, timeout_reason(t.budget)), max);
        },
        OutcomeView::Finished(result) => {
            lemma_failed_row_head(call, result.rendered());
            law_capping_keeps_the_front(failed_row(call, result.rendered()), max);
            let row = success_row(call, result.rendered());
            assert(row.take(head.len() as int) =~= head);
            law_capping_keeps_the_front(row, max);
        },
    }
}

proof fn lemma_failed_row_head(call: CallView, reason: Seq<char>)
    ensures
        ("TOOL RESULTS:\n["@ + shown_id(call.id) + " "@ + call.name).is_prefix_of(
            failed_row(call, reason),
        ),
{
    let head = "TOOL RESULTS:\n["@ + shown_id(call.id) + " "@ + call.name;
    assert(failed_row(call, reason).take(head.len() as int) =~= head);
}

/// A failure leaves evidence of itself: under the id of its call, with what
/// the tool said; and a call that ran out of time tells after how many
/// seconds.
pub proof fn law_failures_leave_evidence(t: TurnView, outcome: OutcomeView)
    requires
        t.position < t.calls.len(),
        outcome matches OutcomeView::Finished(result) ==> result is Failed && !undispatched(result),
    ensures
        ({
            let after = t.recorded(outcome);
            let piece = after.evidence.last();
            &&& t.evidence.is_prefix_of(after.evidence)
            &&& piece.id == t.calls[t.position as int].id
            &&& piece.excerpt.len() <= t.budget.max_evidence_chars ==> has_text(
                piece.excerpt,
                after.failure_reason,
            )
            &&& outcome is TimedOut ==> has_text(
                after.failure_reason,
                decimal(t.budget.tool_timeout@ / 1_000_000_000),
            )
        }),
{
    let after = t.recorded(outcome);
    let max = t.budget.max_evidence_chars as nat;
    let reason = after.failure_reason;
    assert(after.evidence.subrange(0, t.evidence.len() as int) =~= t.evidence);
    lemma_has_middle("TIMEOUT: "@, reason, Seq::empty());
    lemma_has_middle(Seq::empty(), reason, Seq::empty());
    assert(Seq::<char>::empty() + reason + Seq::<char>::empty() =~= reason);
    lemma_has_middle(
        "timeout after "@,
        decimal(t.budget.tool_timeout@ / 1_000_000_000),
        "s"@,
    );
    law_capping_keeps_the_front("TIMEOUT: "@ + reason, max);
    law_capping_keeps_the_front(reason, max);
}

/// The rows of a turn are shown in their order, one a line, and whatever the
/// model is shown of a turn without a failure is marked as results.
pub proof fn law_rows_are_shown_in_order(t: TurnView)
    ensures
        has_text(t.outcome().observation, join(t.rows, "\n"@)),
        t.failure is None && t.outcome().observation.len() > 0 ==> has_text(
            t.outcome().observation,
            "TOOL RESULTS:"@,
        ),
        t.failure is None && t.rows.len() == 0 && t.calls.len() <= call_cap(t.budget)
            ==> t.outcome().observation.len() == 0,
{
    let rows = join(t.rows, "\n"@);
    lemma_has_middle(Seq::empty(), rows, Seq::empty());
    assert(Seq::<char>::empty() + rows + Seq::<char>::empty() =~= rows);
    lemma_rows_are_seen(t, rows);
    lemma_text_is_seen(t, rows);
    reveal_strlit("TOOL RESULTS:");
    reveal_strlit("TOOL RESULTS:\n");
    let seen = "TOOL RESULTS:\n"@ + t.with_overflow();
    assert(seen.subrange(0, 13) =~= "TOOL RESULTS:"@);
    assert(crate::text::occurs_at(seen, "TOOL RESULTS:"@, 0));
    if t.rows.len() == 0 {
        crate::text::law_joining_loses_nothing(t.rows, "\n"@);
    }
}

/// The model is told of every tool that it may use, with its purpose, and of
/// no other.
pub proof fn law_the_footer_tells_the_tools(allowed: Seq<Seq<char>>)
    ensures
        allowed.contains("search"@) ==> has_text(footer(allowed), "search"@) && has_text(
            footer(allowed),
            SEARCH_TOOL_DESCRIPTION@,
        ),
        allowed.contains("fetch"@) ==> has_text(footer(allowed), "fetch"@) && has_text(
            footer(allowed),
            FETCH_TOOL_DESCRIPTION@,
        ),
        allowed_purposes(allowed).contains(("search"@, SEARCH_TOOL_DESCRIPTION@))
            <==> allowed.contains("search"@),
        allowed_purposes(allowed).contains(("fetch"@, FETCH_TOOL_DESCRIPTION@))
            <==> allowed.contains("fetch"@),
        forall|i: int|
            0 <= i < allowed_purposes(allowed).len() ==> allowed.contains(
                (#[trigger] allowed_purposes(allowed)[i]).0,
            ),
        !allowed.contains("search"@) && !allowed.contains("fetch"@) ==> footer(allowed).len() == 0,
{
    let roster = allowed_purposes(allowed);
    let lines = Seq::new(roster.len(), |i: int| footer_line(roster[i]));
    reveal_strlit("search");
    reveal_strlit("fetch");
    assert("search"@.len() == 6 && "fetch"@.len() == 5);
    if allowed.contains("search"@) {
        assert(roster[0] == ("search"@, SEARCH_TOOL_DESCRIPTION@));
        lemma_footer_line(allowed, 0);
    }
    if allowed.contains("fetch"@) {
        let k = roster.len() - 1;
        assert(roster[k] == ("fetch"@, FETCH_TOOL_DESCRIPTION@));
        lemma_footer_line(allowed, k);
    }
    crate::text::law_joining_loses_nothing(lines, "\n"@);
}

proof fn lemma_line_tells_the_tool(tool: (Seq<char>, Seq<char>))
    ensures
        has_text(footer_line(tool), tool.0),
        has_text(footer_line(tool), tool.1),
{
    lemma_has_middle(Seq::empty(), tool.0, " — "@);
    lemma_has_more(tool.0 + " — "@, tool.1, tool.0);
    lemma_has_middle(tool.0 + " — "@, tool.1, Seq::empty());
}

proof fn lemma_footer_line(allowed: Seq<Seq<char>>, i: int)
    requires
        0 <= i < allowed_purposes(allowed).len(),
    ensures
        has_text(footer(allowed), allowed_purposes(allowed)[i].0),
        has_text(footer(allowed), allowed_purposes(allowed)[i].1),
{
    let roster = allowed_purposes(allowed);
    let lines = Seq::new(roster.len(), |i: int| footer_line(roster[i]));
    let line = footer_line(roster[i]);
    assert(lines[i] == line);
    lemma_join_has(lines, "\n"@, i);
    lemma_line_tells_the_tool(roster[i]);
    lemma_has_through(footer(allowed), line, roster[i].0);
    lemma_has_through(footer(allowed), line, roster[i].1);
}

/// A blank answer is one more failure in a row, and the model is told which
/// tools it has. Only a missing key at the first turn is no start; any other
/// failure of the gateway ends the run as that failure.
pub proof fn law_blank_answers_are_answered(
    run: LoopView,
    reply: Result<ReplyView, GatewayFailure>,
)
    requires
        run.well_formed(),
    ensures
        run.after_reply(reply) matches StepView::Ask(next) ==> {
            &&& next.consecutive_failures == run.consecutive_failures + 1
            &&& next.history.last() matches EntryView::Observation(told) && has_text(
                told,
                footer(run.input.allowed_tools),
            ) && has_text(told, "empty answer"@)
        },
        reply matches Err(e) ==> {
            &&& e is MissingApiKey && run.turn == 1 ==> (run.after_reply(
                reply,
            ) matches StepView::Done(Err(failure)) && failure is NoStart)
            &&& !(e is MissingApiKey && run.turn == 1) ==> run.after_reply(reply)
                == StepView::Done(Err(LoopFailure::Gateway(e)))
        },
{
    let tools = footer(run.input.allowed_tools);
    let told = EMPTY_ANSWER_TEXT@ + tools;
    lemma_has_middle(EMPTY_ANSWER_TEXT@, tools, Seq::empty());
    assert(has_text(EMPTY_ANSWER_TEXT@, "empty answer"@)) by {
        reveal_strlit(
            "TOOL ERROR: empty answer — use the offered tools to gather evidence, or answer directly when evidence suffices.\nAvailable tools:\n",
        );
        reveal_strlit("empty answer");
        assert(EMPTY_ANSWER_TEXT@.subrange(12, 24) =~= "empty answer"@);
        assert(crate::text::occurs_at(EMPTY_ANSWER_TEXT@, "empty answer"@, 12));
    }
    lemma_has_more(EMPTY_ANSWER_TEXT@, tools, "empty answer"@);
}

/// What keeps a run from starting is told: a blank goal before anything else,
/// then the first tool that is not known, by its name.
pub proof fn law_the_first_unknown_tool_is_named(input: LoopInputView, budget: LoopBudget, k: int)
    requires
        0 <= k < input.allowed_tools.len(),
        input.allowed_tools[k] != "search"@ && input.allowed_tools[k] != "fetch"@,
        forall|i: int|
            0 <= i < k ==> (#[trigger] input.allowed_tools[i]) == "search"@
                || input.allowed_tools[i] == "fetch"@,
    ensures
        !is_blank(input.goal) ==> (no_start(input, budget) matches Some(reason)
            && input.allowed_tools[k].is_suffix_of(reason)),
        no_start(input, budget) is Some,
{
    lemma_first_unknown_is(input.allowed_tools, k);
    let name = input.allowed_tools[k];
    let reason = "unknown tool: "@ + name;
    assert(reason.skip(reason.len() - name.len()) =~= name);
}

proof fn lemma_first_unknown_is(allowed: Seq<Seq<char>>, k: int)
    requires
        0 <= k < allowed.len(),
        allowed[k] != "search"@ && allowed[k] != "fetch"@,
        forall|i: int|
            0 <= i < k ==> (#[trigger] allowed[i]) == "search"@ || allowed[i] == "fetch"@,
    ensures
        first_unknown(allowed) == Some(allowed[k]),
    decreases k,
{
    assert(known_tools()[0] == "search"@ && known_tools()[1] == "fetch"@);
    if k > 0 {
        let rest = allowed.drop_first();
        assert(allowed[0] == "search"@ || allowed[0] == "fetch"@);
        assert forall|i: int| 0 <= i < k - 1 implies (#[trigger] rest[i]) == "search"@ || rest[i]
            == "fetch"@ by {
            assert(rest[i] == allowed[i + 1]);
        }
        lemma_first_unknown_is(rest, k - 1);
    }
}

/// Every call that the registry refuses is a failed dispatch, so that the model
/// is told of it at once.
pub proof fn law_refused_calls_are_failed_dispatches(
    call: CallView,
    parsed: Result<ArgumentsView, Seq<char>>,
)
    ensures
        live_result(call, parsed) is Failed ==> undispatched(live_result(call, parsed)),
{
    lemma_phrases();
    if let ResultView::Failed { reason, .. } = live_result(call, parsed) {
        if call.name != SEARCH_TOOL_NAME@ && call.name != FETCH_TOOL_NAME@ {
            lemma_has_more("unknown tool '"@, call.name, "unknown tool"@);
            lemma_has_more("unknown tool '"@ + call.name, "'"@, "unknown tool"@);
        } else {
            match parsed {
                Err(e) => {
                    lemma_has_more("arguments are not valid JSON: "@, e, "not valid JSON"@);
                },
                Ok(args) => {
                    if let Err(e) = search_args(args) {
                        lemma_has_more("invalid args for 'search': "@, e, "invalid args"@);
                    }
                    if let Err(e) = fetch_args(args) {
                        lemma_has_more("invalid args for 'fetch': "@, e, "invalid args"@);
                    }
                },
            }
        }
    }
}

proof fn lemma_phrases()
    ensures
        has_text("unknown tool '"@, "unknown tool"@),
        has_text("arguments are not valid JSON: "@, "not valid JSON"@),
        has_text("invalid args for 'search': "@, "invalid args"@),
        has_text("invalid args for 'fetch': "@, "invalid args"@),
{
    reveal_strlit("unknown tool '");
    reveal_strlit("unknown tool");
    assert("unknown tool '"@.subrange(0, 12) =~= "unknown tool"@);
    assert(crate::text::occurs_at("unknown tool '"@, "unknown tool"@, 0));
    reveal_strlit("arguments are not valid JSON: ");
    reveal_strlit("not valid JSON");
    assert("arguments are not valid JSON: "@.subrange(14, 28) =~= "not valid JSON"@);
    assert(crate::text::occurs_at("arguments are not valid JSON: "@, "not valid JSON"@, 14));
    reveal_strlit("invalid args for 'search': ");
    reveal_strlit("invalid args for 'fetch': ");
    reveal_strlit("invalid args");
    assert("invalid args for 'search': "@.subrange(0, 12) =~= "invalid args"@);
    assert(crate::text::occurs_at("invalid args for 'search': "@, "invalid args"@, 0));
    assert("invalid args for 'fetch': "@.subrange(0, 12) =~= "invalid args"@);
    assert(crate::text::occurs_at("invalid args for 'fetch': "@, "invalid args"@, 0));
}

} // verus!
