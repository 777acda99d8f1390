//! One research run: what it is asked, how it starts, and what it leaves
//! behind.
//!
//! The caller reads the environment, drives the agent loop, and writes the
//! session file.

use vstd::prelude::*;
use crate::shared::agent_loop::runner::{LoopBudget, LoopError, LoopInput, RunReport, ToolEvidence};
use crate::shared::gateway::client::GatewayError;
use crate::shared::gateway::config::{GatewayConfig, GatewayEnv};
use crate::shared::session::{Evidence, SessionHeader, SessionUsage, TurnRow};
use crate::shared::types::synthesis::SynthesisSize;
use crate::slices::search::response::{ResearchResponse, SynthesisDTO, UsageDTO};
use crate::text::{blank, decimal_text, same_text};
#[allow(unused_imports)]
use crate::shared::agent_loop::runner::{default_budget, BudgetView, EvidenceView, LoopFailure,
    LoopInputView, ReportView};
#[allow(unused_imports)]
use crate::shared::gateway::config::{config_from, ConfigView, EnvView};
#[allow(unused_imports)]
use crate::shared::session::{collected, no_tokens, HeaderView, RowView, SourceView};
#[allow(unused_imports)]
use crate::shared::types::synthesis::size_name;
#[allow(unused_imports)]
use crate::slices::search::response::{synthesis_json, ResponseView};
#[allow(unused_imports)]
use crate::text::{
    decimal, has_text, is_blank, law_numbers_round_trip, lemma_decimal_digits, lemma_has_middle,
    lemma_views_empty, lemma_views_push, opt_view, views,
};
#[allow(unused_imports)]
use crate::SESSION_FORMAT_VERSION;

verus! {

/// The turn budget of a request that names none.
pub fn default_max_turns() -> (r: u32)
    ensures
        r == 8,
{
    LoopBudget::default().max_turns
}

/// The size with this name.
pub fn size_from_name(name: &str) -> (r: Option<SynthesisSize>)
    ensures
        match r {
            Some(size) => name@ == size_name(size),
            None => forall|size: SynthesisSize| name@ != size_name(size),
        },
{
    if same_text(name, "small") {
        Some(SynthesisSize::Small)
    } else if same_text(name, "medium") {
        Some(SynthesisSize::Medium)
    } else if same_text(name, "large") {
        Some(SynthesisSize::Large)
    } else if same_text(name, "deep") {
        Some(SynthesisSize::Deep)
    } else {
        None
    }
}

/// No two sizes share a name, so that a name that was written down is read
/// back as the size it was written for.
pub proof fn law_size_names_are_distinct(a: SynthesisSize, b: SynthesisSize)
    ensures
        size_name(a) == size_name(b) <==> a == b,
{
    reveal_strlit("small");
    reveal_strlit("medium");
    reveal_strlit("large");
    reveal_strlit("deep");
    assert(size_name(SynthesisSize::Small)[0] == 's');
    assert(size_name(SynthesisSize::Medium)[0] == 'm');
    assert(size_name(SynthesisSize::Large)[0] == 'l');
    assert(size_name(SynthesisSize::Deep)[0] == 'd');
}

/// The size that the command line may ask for by this name. `deep` is
/// reserved.
pub fn size_argument(name: &str) -> (r: Option<SynthesisSize>)
    ensures
        match r {
            Some(size) => size != SynthesisSize::Deep && name@ == size_name(size),
            None => forall|size: SynthesisSize|
                size != SynthesisSize::Deep ==> name@ != size_name(size),
        },
{
    match size_from_name(name) {
        Some(SynthesisSize::Deep) => {
            proof {
                law_size_names_are_distinct(SynthesisSize::Small, SynthesisSize::Deep);
                law_size_names_are_distinct(SynthesisSize::Medium, SynthesisSize::Deep);
                law_size_names_are_distinct(SynthesisSize::Large, SynthesisSize::Deep);
            }
            None
        },
        other => other,
    }
}

/// What a research run is asked.
#[derive(Debug, Clone)]
pub struct ResearchRequest {
    /// The research goal in the user's words; not blank.
    pub goal: String,
    /// The requested size of the answer, echoed in it.
    pub size: SynthesisSize,
    /// Gateway calls in all; at least one.
    pub max_turns: u32,
    /// The session; one is made up where there is none.
    pub session_id: Option<String>,
    /// The session file; it is named after the session where there is none.
    pub session_out: Option<std::path::PathBuf>,
}

/// Why a research run failed.
#[derive(Debug)]
pub enum ResearchError {
    /// A blank goal, an empty turn budget or a missing key. Nothing was sent
    /// or written.
    NotConfigured(String),
    /// The gateway gave up.
    GatewayExhausted(String),
    /// Tool calls failed, or could not be dispatched, too often in a row.
    ToolFailure(String),
    /// The turn budget is used up without an answer.
    BudgetExhausted { turns: u32 },
    /// The session file could not be written.
    Io(String),
}

/// What the failure of a research run says.
#[verifier::ext_equal]
pub enum ResearchFailure {
    NotConfigured(Seq<char>),
    GatewayExhausted(Seq<char>),
    ToolFailure(Seq<char>),
    BudgetExhausted(u32),
    Io(Seq<char>),
}

impl View for ResearchError {
    type V = ResearchFailure;

    open spec fn view(&self) -> ResearchFailure {
        match *self {
            ResearchError::NotConfigured(reason) => ResearchFailure::NotConfigured(reason@),
            ResearchError::GatewayExhausted(reason) => ResearchFailure::GatewayExhausted(reason@),
            ResearchError::ToolFailure(reason) => ResearchFailure::ToolFailure(reason@),
            ResearchError::BudgetExhausted { turns } => ResearchFailure::BudgetExhausted(turns),
            ResearchError::Io(reason) => ResearchFailure::Io(reason@),
        }
    }
}

impl ResearchFailure {
    /// The failure in words.
    pub open spec fn message(self) -> Seq<char> {
        match self {
            ResearchFailure::NotConfigured(reason) => "research not configured: "@ + reason,
            ResearchFailure::GatewayExhausted(reason) => "gateway exhausted: "@ + reason,
            ResearchFailure::ToolFailure(reason) => "tool failure: "@ + reason,
            ResearchFailure::BudgetExhausted(turns) => "turn budget exhausted after "@ + decimal(
                turns as nat,
            ) + " turns"@,
            ResearchFailure::Io(reason) => "session write failed: "@ + reason,
        }
    }

    /// The exit code of the program.
    pub open spec fn exit_code(self) -> i32 {
        match self {
            ResearchFailure::NotConfigured(_) => 2,
            ResearchFailure::GatewayExhausted(_) => 3,
            ResearchFailure::ToolFailure(_) => 4,
            ResearchFailure::BudgetExhausted(_) => 5,
            ResearchFailure::Io(_) => 6,
        }
    }
}

/// One text after another.
fn followed(head: &str, tail: &str) -> (r: String)
    ensures
        r@ == head@ + tail@,
{
    let mut out = head.to_owned();
    out.append(tail);
    out
}

impl ResearchError {
    /// The failure in words.
    pub fn to_string(&self) -> (r: String)
        ensures
            r@ == self@.message(),
    {
        match self {
            ResearchError::NotConfigured(reason) => followed(
                "research not configured: ",
                reason.as_str(),
            ),
            ResearchError::GatewayExhausted(reason) => followed(
                "gateway exhausted: ",
                reason.as_str(),
            ),
            ResearchError::ToolFailure(reason) => followed("tool failure: ", reason.as_str()),
            ResearchError::BudgetExhausted { turns } => {
                let count = decimal_text(*turns as u64);
                let mut text = followed("turn budget exhausted after ", count.as_str());
                text.append(" turns");
                text
            },
            ResearchError::Io(reason) => followed("session write failed: ", reason.as_str()),
        }
    }
}

/// The exit code of the program for a failure.
pub fn exit_for(err: &ResearchError) -> (r: i32)
    ensures
        r == err@.exit_code(),
{
    match err {
        ResearchError::NotConfigured(_) => 2,
        ResearchError::GatewayExhausted(_) => 3,
        ResearchError::ToolFailure(_) => 4,
        ResearchError::BudgetExhausted { .. } => 5,
        ResearchError::Io(_) => 6,
    }
}

/// How the failure of the agent loop is told.
pub open spec fn failure_of(failure: LoopFailure) -> ResearchFailure {
    match failure {
        LoopFailure::NoStart(reason) => ResearchFailure::NotConfigured(reason),
        LoopFailure::Gateway(e) => ResearchFailure::GatewayExhausted(
            if e is RateLimited {
                e.message() + "; retry later or abort"@
            } else {
                e.message()
            },
        ),
        LoopFailure::InvalidToolCall(reason) => ResearchFailure::ToolFailure(reason),
        LoopFailure::ToolFailed(reason) => ResearchFailure::ToolFailure(reason),
        LoopFailure::BudgetExhausted(turns) => ResearchFailure::BudgetExhausted(turns),
    }
}

/// How the failure of the agent loop is told.
pub fn map_loop_error(err: LoopError) -> (r: ResearchError)
    ensures
        r@ == failure_of(err@),
{
    match err {
        LoopError::NoStart(reason) => ResearchError::NotConfigured(reason),
        LoopError::Gateway(gateway_err) => {
            let message = gateway_err.to_string();
            match gateway_err {
                GatewayError::RateLimited { .. } => ResearchError::GatewayExhausted(
                    followed(message.as_str(), "; retry later or abort"),
                ),
                _ => ResearchError::GatewayExhausted(message),
            }
        },
        LoopError::InvalidToolCall { reason } => ResearchError::ToolFailure(reason),
        LoopError::ToolFailed { reason } => ResearchError::ToolFailure(reason),
        LoopError::BudgetExhausted { turns } => ResearchError::BudgetExhausted { turns },
    }
}

/// Every failure of the agent loop has the exit code of its kind, and none is
/// told as a failure to write the session.
pub proof fn law_loop_failures_have_their_exit_codes(failure: LoopFailure)
    ensures
        failure_of(failure).exit_code() == match failure {
            LoopFailure::NoStart(_) => 2i32,
            LoopFailure::Gateway(_) => 3i32,
            LoopFailure::InvalidToolCall(_) => 4i32,
            LoopFailure::ToolFailed(_) => 4i32,
            LoopFailure::BudgetExhausted(_) => 5i32,
        },
        !(failure_of(failure) is Io),
{
}

/// What a research run starts with.
pub struct ResearchPlan {
    pub config: GatewayConfig,
    pub input: LoopInput,
    pub budget: LoopBudget,
}

/// What a plan says of the run.
#[verifier::ext_equal]
pub struct PlanView {
    pub config: ConfigView,
    pub input: LoopInputView,
    pub budget: BudgetView,
}

impl View for ResearchPlan {
    type V = PlanView;

    open spec fn view(&self) -> PlanView {
        PlanView {
            config: self.config@,
            input: self.input@,
            budget: self.budget@,
        }
    }
}

/// What a request starts with: both tools are allowed.
pub open spec fn plan_of(
    goal: Seq<char>,
    size: SynthesisSize,
    max_turns: u32,
    env: EnvView,
) -> Result<PlanView, ResearchFailure> {
    if is_blank(goal) {
        Err(ResearchFailure::NotConfigured("research goal is empty"@))
    } else if max_turns < 1 {
        Err(ResearchFailure::NotConfigured("max_turns must be >= 1"@))
    } else {
        match config_from(env) {
            Ok(config) => Ok(
                PlanView {
                    config,
                    input: LoopInputView {
                        goal,
                        size,
                        allowed_tools: seq!["search"@, "fetch"@],
                    },
                    budget: BudgetView { max_turns, ..default_budget() },
                },
            ),
            Err(reason) => Err(ResearchFailure::NotConfigured(reason)),
        }
    }
}

/// What a request starts with. Of the budget it sets the turns alone; a
/// request that cannot start is refused before anything is sent or written.
pub fn plan_research(req: &ResearchRequest, env: &GatewayEnv) -> (r: Result<
    ResearchPlan,
    ResearchError,
>)
    ensures
        match r {
            Ok(plan) => plan_of(req.goal@, req.size, req.max_turns, env@) == Ok::<
                PlanView,
                ResearchFailure,
            >(plan@),
            Err(e) => plan_of(req.goal@, req.size, req.max_turns, env@) == Err::<
                PlanView,
                ResearchFailure,
            >(e@),
        },
{
    if blank(req.goal.as_str()) {
        return Err(ResearchError::NotConfigured("research goal is empty".to_owned()));
    }
    if req.max_turns < 1 {
        return Err(ResearchError::NotConfigured("max_turns must be >= 1".to_owned()));
    }
    match GatewayConfig::from_env(env) {
        Ok(config) => {
            let allowed_tools = vec!["search".to_owned(), "fetch".to_owned()];
            assert(views(allowed_tools@) =~= seq!["search"@, "fetch"@]);
            let input = LoopInput { goal: req.goal.clone(), size: req.size, allowed_tools };
            let mut budget = LoopBudget::default();
            budget.max_turns = req.max_turns;
            Ok(ResearchPlan { config, input, budget })
        },
        Err(reason) => Err(ResearchError::NotConfigured(reason)),
    }
}

/// The session of a request: the one that it names, else the seconds after
/// the start of 1970 and the number of the process.
pub open spec fn session_of(requested: Option<Seq<char>>, secs: nat, pid: nat) -> Seq<char> {
    match requested {
        Some(id) => id,
        None => decimal(secs) + "-"@ + decimal(pid),
    }
}

/// The session of a request that is made at this time by this process.
pub fn session_id(requested: &Option<String>, secs: u64, pid: u32) -> (r: String)
    ensures
        r@ == session_of(opt_view(*requested), secs as nat, pid as nat),
{
    match requested {
        Some(id) => id.clone(),
        None => {
            let count = decimal_text(secs);
            let number = decimal_text(pid as u64);
            let mut id = followed(count.as_str(), "-");
            id.append(number.as_str());
            id
        },
    }
}

/// The name of the file of a session.
pub fn session_file_name(session_id: &str) -> (r: String)
    ensures
        r@ == session_id@ + ".jsonl"@,
{
    followed(session_id, ".jsonl")
}

/// The sources of the evidence, as far as it has one, in order.
pub open spec fn urls_of(evidence: Seq<EvidenceView>) -> Seq<Seq<char>>
    decreases evidence.len(),
{
    if evidence.len() == 0 {
        Seq::empty()
    } else {
        match evidence.last().url {
            Some(url) => urls_of(evidence.drop_last()).push(url),
            None => urls_of(evidence.drop_last()),
        }
    }
}

/// The evidence of one turn that has a source, as it is recorded at this
/// time.
pub open spec fn turn_sources(evidence: Seq<EvidenceView>, turn: u32, secs: nat) -> Seq<SourceView>
    decreases evidence.len(),
{
    if evidence.len() == 0 {
        Seq::empty()
    } else {
        let before = turn_sources(evidence.drop_last(), turn, secs);
        let item = evidence.last();
        match item.url {
            Some(url) => if item.turn == turn {
                before.push(collected(url, item.excerpt, secs))
            } else {
                before
            },
            None => before,
        }
    }
}

/// The token counts of a run as they are recorded.
pub open spec fn recorded_usage(report: ReportView) -> SessionUsage {
    SessionUsage {
        prompt_tokens: report.usage.prompt_tokens,
        completion_tokens: report.usage.completion_tokens,
        total_tokens: report.usage.total_tokens,
        reasoning_tokens: report.usage.reasoning_tokens,
    }
}

/// The row of one turn. The last turn has the synthesis and the token counts
/// of the whole run.
pub open spec fn turn_row(report: ReportView, id: Seq<char>, turn: u32, secs: nat) -> RowView {
    RowView {
        session_id: id,
        turn,
        evidence: turn_sources(report.evidence, turn, secs),
        synthesis: if turn == report.turns_used {
            Some(synthesis_json(report.synthesis))
        } else {
            None
        },
        usage: if turn == report.turns_used {
            recorded_usage(report)
        } else {
            no_tokens()
        },
    }
}

/// The rows of a run, one for each turn.
pub open spec fn session_rows(report: ReportView, id: Seq<char>, secs: nat) -> Seq<RowView> {
    Seq::new(report.turns_used as nat, |i: int| turn_row(report, id, (i + 1) as u32, secs))
}

/// What a run answers.
pub open spec fn response_of(report: ReportView, id: Seq<char>) -> ResponseView {
    ResponseView {
        session_id: id,
        synthesis: report.synthesis,
        turns_used: report.turns_used,
        evidence_urls: urls_of(report.evidence),
        usage: UsageDTO {
            prompt_tokens: report.usage.prompt_tokens,
            completion_tokens: report.usage.completion_tokens,
            total_tokens: report.usage.total_tokens,
            reasoning_tokens: report.usage.reasoning_tokens,
        },
    }
}

/// What a successful run leaves behind: the lines of the session file, and
/// the answer.
#[derive(Debug)]
pub struct ResearchRecord {
    pub header: SessionHeader,
    pub rows: Vec<TurnRow>,
    pub response: ResearchResponse,
}

fn urls_in(evidence: &[ToolEvidence]) -> (r: Vec<String>)
    ensures
        views(r@) == urls_of(views(evidence@)),
{
    broadcast use {lemma_views_push, lemma_views_empty};

    let ghost all = views(evidence@);
    let mut out: Vec<String> = Vec::new();
    let mut i: usize = 0;
    while i < evidence.len()
        invariant
            i <= evidence@.len(),
            all == views(evidence@),
            views(out@) == urls_of(all.take(i as int)),
        decreases evidence@.len() - i,
    {
        assert(all.take(i + 1).drop_last() =~= all.take(i as int));
        assert(all.take(i + 1).last() == evidence@[i as int]@);
        if let Some(url) = &evidence[i].url {
            let ghost so_far = views(out@);
            out.push(url.clone());
            assert(views(out@) == so_far.push(url@));
        }
        i += 1;
    }
    assert(all.take(i as int) =~= all);
    out
}

fn sources_of_turn(evidence: &[ToolEvidence], turn: u32, secs: u64) -> (r: Vec<Evidence>)
    ensures
        views(r@) == turn_sources(views(evidence@), turn, secs as nat),
{
    broadcast use {lemma_views_push, lemma_views_empty};

    let ghost all = views(evidence@);
    let mut out: Vec<Evidence> = Vec::new();
    let mut i: usize = 0;
    while i < evidence.len()
        invariant
            i <= evidence@.len(),
            all == views(evidence@),
            views(out@) == turn_sources(all.take(i as int), turn, secs as nat),
        decreases evidence@.len() - i,
    {
        assert(all.take(i + 1).drop_last() =~= all.take(i as int));
        assert(all.take(i + 1).last() == evidence@[i as int]@);
        let item = &evidence[i];
        if item.turn == turn {
            if let Some(url) = &item.url {
                let ghost so_far = views(out@);
                out.push(Evidence::at(url.clone(), item.excerpt.clone(), secs));
                assert(views(out@) == so_far.push(collected(url@, item.excerpt@, secs as nat)));
            }
        }
        i += 1;
    }
    assert(all.take(i as int) =~= all);
    out
}

/// What a successful run leaves behind, where it is recorded that many
/// seconds after the start of 1970.
pub fn record_research(
    goal: &str,
    size: SynthesisSize,
    session_id: String,
    report: RunReport,
    secs: u64,
) -> (r: ResearchRecord)
    ensures
        r.header@ == (HeaderView {
            format_version: SESSION_FORMAT_VERSION,
            session_id: session_id@,
            goal: goal@,
            size: size_name(size),
        }),
        views(r.rows@) == session_rows(report@, session_id@, secs as nat),
        r.response@ == response_of(report@, session_id@),
{
    broadcast use {lemma_views_push, lemma_views_empty};

    let ghost said = report@;
    let ghost all = session_rows(said, session_id@, secs as nat);
    let header = SessionHeader::new(
        session_id.clone(),
        goal.to_owned(),
        size.as_str().to_owned(),
    );
    let evidence_urls = urls_in(report.evidence.as_slice());
    let usage = UsageDTO::from(report.usage);
    let turns_used: u32 = report.turns_used;
    let evidence = report.evidence;
    let synthesis = SynthesisDTO::from_synthesis(report.synthesis);
    let mut rows: Vec<TurnRow> = Vec::new();
    let mut done: u32 = 0;
    while done < turns_used
        invariant
            done <= turns_used,
            turns_used == said.turns_used,
            views(evidence@) == said.evidence,
            synthesis@ == said.synthesis,
            usage == response_of(said, session_id@).usage,
            all == session_rows(said, session_id@, secs as nat),
            views(rows@) == all.take(done as int),
        decreases turns_used - done,
    {
        let turn: u32 = done + 1;
        let is_last = turn == turns_used;
        let row = TurnRow::new(
            session_id.clone(),
            turn,
            sources_of_turn(evidence.as_slice(), turn, secs),
            if is_last {
                Some(synthesis.to_json())
            } else {
                None
            },
            if is_last {
                SessionUsage::from(usage)
            } else {
                SessionUsage::default()
            },
        );
        assert(row@ == all[done as int]);
        let ghost so_far = views(rows@);
        rows.push(row);
        assert(views(rows@) == so_far.push(all[done as int]));
        done = turn;
        assert(views(rows@) =~= all.take(done as int));
    }
    assert(views(rows@) =~= all);
    let response = ResearchResponse { session_id, synthesis, turns_used, evidence_urls, usage };
    ResearchRecord { header, rows, response }
}

/// The evidence that rows hold together, row after row.
pub open spec fn recorded_sources(rows: Seq<RowView>) -> Seq<SourceView>
    decreases rows.len(),
{
    if rows.len() == 0 {
        Seq::empty()
    } else {
        recorded_sources(rows.drop_last()) + rows.last().evidence
    }
}

/// The evidence up to a turn that has a source, as it is recorded at this
/// time.
pub open spec fn sources_to(evidence: Seq<EvidenceView>, turn: int, secs: nat) -> Seq<SourceView>
    decreases evidence.len(),
{
    if evidence.len() == 0 {
        Seq::empty()
    } else {
        let before = sources_to(evidence.drop_last(), turn, secs);
        let item = evidence.last();
        match item.url {
            Some(url) => if item.turn <= turn {
                before.push(collected(url, item.excerpt, secs))
            } else {
                before
            },
            None => before,
        }
    }
}

proof fn lemma_no_later_sources(evidence: Seq<EvidenceView>, turn: u32, secs: nat)
    requires
        forall|i: int| 0 <= i < evidence.len() ==> (#[trigger] evidence[i]).turn < turn,
    ensures
        turn_sources(evidence, turn, secs).len() == 0,
    decreases evidence.len(),
{
    if evidence.len() > 0 {
        assert forall|i: int| 0 <= i < evidence.drop_last().len() implies (
        #[trigger] evidence.drop_last()[i]).turn < turn by {
            assert(evidence.drop_last()[i] == evidence[i]);
        }
        lemma_no_later_sources(evidence.drop_last(), turn, secs);
    }
}

proof fn lemma_sources_turn_by_turn(evidence: Seq<EvidenceView>, turn: u32, secs: nat)
    requires
        1 <= turn,
        forall|i: int, j: int|
            0 <= i <= j < evidence.len() ==> (#[trigger] evidence[i]).turn <= (
            #[trigger] evidence[j]).turn,
    ensures
        sources_to(evidence, turn as int, secs) == sources_to(evidence, turn - 1, secs)
            + turn_sources(evidence, turn, secs),
    decreases evidence.len(),
{
    if evidence.len() > 0 {
        let rest = evidence.drop_last();
        assert forall|i: int, j: int| 0 <= i <= j < rest.len() implies (#[trigger] rest[i]).turn
            <= (#[trigger] rest[j]).turn by {
            assert(rest[i] == evidence[i] && rest[j] == evidence[j]);
        }
        lemma_sources_turn_by_turn(rest, turn, secs);
        if evidence.last().turn < turn {
            assert forall|i: int| 0 <= i < rest.len() implies (#[trigger] rest[i]).turn < turn by {
                assert(rest[i] == evidence[i]);
                assert(evidence[i].turn <= evidence[evidence.len() - 1].turn);
            }
            lemma_no_later_sources(rest, turn, secs);
        }
        assert(sources_to(evidence, turn as int, secs) =~= sources_to(evidence, turn - 1, secs)
            + turn_sources(evidence, turn, secs));
    } else {
        assert(sources_to(evidence, turn as int, secs) =~= sources_to(evidence, turn - 1, secs)
            + turn_sources(evidence, turn, secs));
    }
}

proof fn lemma_rows_to(report: ReportView, id: Seq<char>, secs: nat, turns: nat)
    requires
        turns <= report.turns_used,
        forall|i: int|
            0 <= i < report.evidence.len() ==> 1 <= (#[trigger] report.evidence[i]).turn,
        forall|i: int, j: int|
            0 <= i <= j < report.evidence.len() ==> (#[trigger] report.evidence[i]).turn <= (
            #[trigger] report.evidence[j]).turn,
    ensures
        recorded_sources(session_rows(report, id, secs).take(turns as int)) == sources_to(
            report.evidence,
            turns as int,
            secs,
        ),
    decreases turns,
{
    let rows = session_rows(report, id, secs);
    if turns == 0 {
        lemma_none_before(report.evidence, secs);
        assert(rows.take(0) =~= Seq::empty());
    } else {
        lemma_rows_to(report, id, secs, (turns - 1) as nat);
        lemma_sources_turn_by_turn(report.evidence, turns as u32, secs);
        assert(rows.take(turns as int).drop_last() =~= rows.take(turns - 1));
        assert(rows.take(turns as int).last() == rows[turns - 1]);
    }
}

proof fn lemma_none_before(evidence: Seq<EvidenceView>, secs: nat)
    requires
        forall|i: int| 0 <= i < evidence.len() ==> 1 <= (#[trigger] evidence[i]).turn,
    ensures
        sources_to(evidence, 0, secs) =~= Seq::<SourceView>::empty(),
    decreases evidence.len(),
{
    if evidence.len() > 0 {
        assert(evidence.last() == evidence[evidence.len() - 1]);
        assert forall|i: int| 0 <= i < evidence.drop_last().len() implies 1 <= (
        #[trigger] evidence.drop_last()[i]).turn by {
            assert(evidence.drop_last()[i] == evidence[i]);
        }
        lemma_none_before(evidence.drop_last(), secs);
    }
}

proof fn lemma_urls_of_sources(evidence: Seq<EvidenceView>, turn: int, secs: nat)
    requires
        forall|i: int| 0 <= i < evidence.len() ==> (#[trigger] evidence[i]).turn <= turn,
    ensures
        sources_to(evidence, turn, secs).len() == urls_of(evidence).len(),
        forall|i: int|
            0 <= i < urls_of(evidence).len() ==> (#[trigger] sources_to(
                evidence,
                turn,
                secs,
            )[i]).source_url == urls_of(evidence)[i],
    decreases evidence.len(),
{
    if evidence.len() > 0 {
        assert(evidence.last() == evidence[evidence.len() - 1]);
        assert forall|i: int| 0 <= i < evidence.drop_last().len() implies (
        #[trigger] evidence.drop_last()[i]).turn <= turn by {
            assert(evidence.drop_last()[i] == evidence[i]);
        }
        lemma_urls_of_sources(evidence.drop_last(), turn, secs);
    }
}

/// The session file has one row for each turn, numbered from 1; only the last
/// one has the synthesis and token counts. Where the evidence of a run is in
/// the order of its turns, the rows hold, row after row, one source for each
/// URL of the answer, in the same order: nothing is lost or recorded twice.
pub proof fn law_session_records_the_whole_run(report: ReportView, id: Seq<char>, secs: nat)
    requires
        forall|i: int|
            0 <= i < report.evidence.len() ==> 1 <= (#[trigger] report.evidence[i]).turn
                <= report.turns_used,
        forall|i: int, j: int|
            0 <= i <= j < report.evidence.len() ==> (#[trigger] report.evidence[i]).turn <= (
            #[trigger] report.evidence[j]).turn,
    ensures
        session_rows(report, id, secs).len() == report.turns_used,
        forall|i: int|
            0 <= i < report.turns_used ==> {
                let row = #[trigger] session_rows(report, id, secs)[i];
                &&& row.turn == i + 1
                &&& row.session_id == id
                &&& row.synthesis is Some <==> i == report.turns_used - 1
                &&& i < report.turns_used - 1 ==> row.usage == no_tokens()
            },
        recorded_sources(session_rows(report, id, secs)).len() == response_of(
            report,
            id,
        ).evidence_urls.len(),
        forall|i: int|
            0 <= i < response_of(report, id).evidence_urls.len() ==> (#[trigger] recorded_sources(
                session_rows(report, id, secs),
            )[i]).source_url == response_of(report, id).evidence_urls[i],
{
    let rows = session_rows(report, id, secs);
    lemma_rows_to(report, id, secs, report.turns_used as nat);
    assert(rows.take(report.turns_used as int) =~= rows);
    lemma_urls_of_sources(report.evidence, report.turns_used as int, secs);
}

/// A plan is what was asked for: the goal, the size and the turns of the
/// request with both tools, the configuration of the environment, and the
/// limits that every run has. There is none for a blank goal, for no turns, or
/// where the environment has no configuration.
pub proof fn law_plans_are_what_was_asked_for(
    goal: Seq<char>,
    size: SynthesisSize,
    max_turns: u32,
    env: EnvView,
)
    ensures
        ({
            let says_nothing = forall|i: int|
                0 <= i < goal.len() ==> crate::text::is_white_space(#[trigger] goal[i]);
            match plan_of(goal, size, max_turns, env) {
                Ok(plan) => {
                    &&& !says_nothing && max_turns >= 1
                    &&& config_from(env) == Ok::<ConfigView, Seq<char>>(plan.config)
                    &&& plan.input.goal == goal
                    &&& plan.input.size == size
                    &&& plan.input.allowed_tools.len() == 2
                    &&& plan.input.allowed_tools.contains("search"@)
                    &&& plan.input.allowed_tools.contains("fetch"@)
                    &&& plan.budget.max_turns == max_turns
                    &&& plan.budget.max_repairs == 2
                    &&& plan.budget.tool_timeout == 45_000_000_000
                    &&& plan.budget.max_evidence_chars == 4_000
                    &&& plan.budget.max_context_chars == 24_000
                    &&& plan.budget.max_tools_per_turn == 3
                },
                Err(failure) => {
                    &&& says_nothing || max_turns == 0 || config_from(env) is Err
                    &&& failure is NotConfigured
                    &&& !says_nothing && max_turns >= 1 ==> config_from(env) == Err::<
                        ConfigView,
                        Seq<char>,
                    >(failure->NotConfigured_0)
                },
            }
        }),
{
    if let Ok(plan) = plan_of(goal, size, max_turns, env) {
        assert(plan.input.allowed_tools[0] == "search"@);
        assert(plan.input.allowed_tools[1] == "fetch"@);
    }
}

/// What stopped the loop is told to the end: its reason is the end of the
/// message, but for the turns of a spent budget, which are named, and a limit
/// on the rate, after which the advice to try later stands.
pub proof fn law_reasons_are_told(failure: LoopFailure)
    ensures
        match failure {
            LoopFailure::NoStart(reason) => reason.is_suffix_of(failure_of(failure).message()),
            LoopFailure::InvalidToolCall(reason) => reason.is_suffix_of(
                failure_of(failure).message(),
            ),
            LoopFailure::ToolFailed(reason) => reason.is_suffix_of(failure_of(failure).message()),
            LoopFailure::BudgetExhausted(turns) => has_text(
                failure_of(failure).message(),
                decimal(turns as nat),
            ),
            LoopFailure::Gateway(e) => {
                let message = failure_of(failure).message();
                &&& has_text(message, e.message())
                &&& e is RateLimited ==> "retry later or abort"@.is_suffix_of(message)
                &&& !(e is RateLimited) ==> e.message().is_suffix_of(message)
            },
        },
{
    let message = failure_of(failure).message();
    match failure {
        LoopFailure::NoStart(reason) => {
            assert(message.skip(message.len() - reason.len()) =~= reason);
        },
        LoopFailure::InvalidToolCall(reason) => {
            assert(message.skip(message.len() - reason.len()) =~= reason);
        },
        LoopFailure::ToolFailed(reason) => {
            assert(message.skip(message.len() - reason.len()) =~= reason);
        },
        LoopFailure::BudgetExhausted(turns) => {
            lemma_has_middle("turn budget exhausted after "@, decimal(turns as nat), " turns"@);
        },
        LoopFailure::Gateway(e) => {
            let advice = "; retry later or abort"@;
            lemma_has_middle("gateway exhausted: "@, e.message(), advice);
            if e is RateLimited {
                assert(message =~= "gateway exhausted: "@ + e.message() + advice);
                reveal_strlit("; retry later or abort");
                reveal_strlit("retry later or abort");
                let tail = "retry later or abort"@;
                assert(message.skip(message.len() - tail.len()) =~= tail);
            } else {
                assert(message.skip(message.len() - e.message().len()) =~= e.message());
            }
        },
    }
}

/// A session keeps the name that was asked for. Otherwise it is named after
/// the second and the process, so that two sessions have one name only where
/// both are the same.
pub proof fn law_sessions_have_their_names(id: Seq<char>, s1: nat, p1: nat, s2: nat, p2: nat)
    ensures
        session_of(Some(id), s1, p1) == id,
        decimal(s1).is_prefix_of(session_of(None, s1, p1)),
        decimal(p1).is_suffix_of(session_of(None, s1, p1)),
        session_of(None, s1, p1) == session_of(None, s2, p2) <==> s1 == s2 && p1 == p2,
{
    let a = session_of(None, s1, p1);
    let b = session_of(None, s2, p2);
    reveal_strlit("-");
    lemma_decimal_digits(s1);
    lemma_decimal_digits(s2);
    assert(a.take(decimal(s1).len() as int) =~= decimal(s1));
    assert(a.skip(a.len() - decimal(p1).len()) =~= decimal(p1));
    assert(b.take(decimal(s2).len() as int) =~= decimal(s2));
    assert(b.skip(b.len() - decimal(p2).len()) =~= decimal(p2));
    if a == b {
        assert(a[decimal(s1).len() as int] == '-');
        assert(b[decimal(s2).len() as int] == '-');
        if decimal(s1).len() < decimal(s2).len() {
            assert(b[decimal(s1).len() as int] == decimal(s2)[decimal(s1).len() as int]);
        }
        if decimal(s2).len() < decimal(s1).len() {
            assert(a[decimal(s2).len() as int] == decimal(s1)[decimal(s2).len() as int]);
        }
        assert(decimal(s1) == decimal(s2));
        assert(decimal(p1) == decimal(p2));
        law_numbers_round_trip(s1, s1 + s2);
        law_numbers_round_trip(s2, s1 + s2);
        law_numbers_round_trip(p1, p1 + p2);
        law_numbers_round_trip(p2, p1 + p2);
    }
}

/// How many of the first `n` pieces of evidence have a URL.
pub open spec fn pages_to(evidence: Seq<EvidenceView>, n: int) -> nat
    decreases n,
{
    if n <= 0 {
        0
    } else {
        pages_to(evidence, n - 1) + if evidence[n - 1].url is Some {
            1nat
        } else {
            0nat
        }
    }
}

proof fn lemma_pages_to(evidence: Seq<EvidenceView>, n: int, k: int)
    requires
        0 <= k < n <= evidence.len(),
    ensures
        pages_to(evidence, k) <= pages_to(evidence, n),
        evidence[k].url is Some ==> pages_to(evidence, k) < pages_to(evidence, n),
    decreases n - k,
{
    if k + 1 < n {
        lemma_pages_to(evidence, n - 1, k);
    }
}

proof fn lemma_urls_of(evidence: Seq<EvidenceView>, n: int)
    requires
        0 <= n <= evidence.len(),
    ensures
        urls_of(evidence.take(n)).len() == pages_to(evidence, n),
        forall|k: int|
            0 <= k < n && (#[trigger] evidence[k]).url is Some ==> urls_of(
                evidence.take(n),
            )[pages_to(evidence, k) as int] == evidence[k].url->0,
    decreases n,
{
    if n > 0 {
        lemma_urls_of(evidence, n - 1);
        assert(evidence.take(n).drop_last() =~= evidence.take(n - 1));
        assert(evidence.take(n).last() == evidence[n - 1]);
        assert forall|k: int| 0 <= k < n && (#[trigger] evidence[k]).url is Some implies urls_of(
            evidence.take(n),
        )[pages_to(evidence, k) as int] == evidence[k].url->0 by {
            if k < n - 1 {
                lemma_pages_to(evidence, n - 1, k);
            }
        }
    }
}

/// A response is the report under the name of its session: it lists the URL
/// of every piece of evidence that has one, in the order in which they were
/// collected, and nothing else.
pub proof fn law_responses_are_the_report(report: ReportView, id: Seq<char>)
    ensures
        ({
            let r = response_of(report, id);
            &&& r.session_id == id
            &&& r.synthesis == report.synthesis
            &&& r.turns_used == report.turns_used
            &&& r.usage.prompt_tokens == report.usage.prompt_tokens
            &&& r.usage.completion_tokens == report.usage.completion_tokens
            &&& r.usage.total_tokens == report.usage.total_tokens
            &&& r.usage.reasoning_tokens == report.usage.reasoning_tokens
            &&& r.evidence_urls.len() == pages_to(report.evidence, report.evidence.len() as int)
            &&& forall|k: int|
                0 <= k < report.evidence.len() && (#[trigger] report.evidence[k]).url is Some
                    ==> r.evidence_urls[pages_to(report.evidence, k) as int]
                    == report.evidence[k].url->0
        }),
{
    let evidence = report.evidence;
    lemma_urls_of(evidence, evidence.len() as int);
    assert(evidence.take(evidence.len() as int) =~= evidence);
}

/// Whether a source is that of a piece of evidence, collected at a time.
pub open spec fn is_source_of(source: SourceView, item: EvidenceView, secs: nat) -> bool {
    &&& item.url == Some(source.source_url)
    &&& source.markdown == item.excerpt
    &&& source.collected_at == crate::shared::session::timestamp(secs)
}

/// How many of the first `n` pieces of evidence have a URL and are of a turn.
pub open spec fn pages_of(evidence: Seq<EvidenceView>, turn: u32, n: int) -> nat
    decreases n,
{
    if n <= 0 {
        0
    } else {
        pages_of(evidence, turn, n - 1) + if evidence[n - 1].url is Some && evidence[n - 1].turn
            == turn {
            1nat
        } else {
            0nat
        }
    }
}

proof fn lemma_pages_of(evidence: Seq<EvidenceView>, turn: u32, n: int, k: int)
    requires
        0 <= k < n <= evidence.len(),
    ensures
        pages_of(evidence, turn, k) <= pages_of(evidence, turn, n),
        evidence[k].url is Some && evidence[k].turn == turn ==> pages_of(evidence, turn, k)
            < pages_of(evidence, turn, n),
    decreases n - k,
{
    if k + 1 < n {
        lemma_pages_of(evidence, turn, n - 1, k);
    }
}

proof fn lemma_turn_sources(evidence: Seq<EvidenceView>, turn: u32, secs: nat, n: int)
    requires
        0 <= n <= evidence.len(),
    ensures
        turn_sources(evidence.take(n), turn, secs).len() == pages_of(evidence, turn, n),
        forall|k: int|
            0 <= k < n && (#[trigger] evidence[k]).url is Some && evidence[k].turn == turn
                ==> is_source_of(
                turn_sources(evidence.take(n), turn, secs)[pages_of(evidence, turn, k) as int],
                evidence[k],
                secs,
            ),
    decreases n,
{
    if n > 0 {
        lemma_turn_sources(evidence, turn, secs, n - 1);
        assert(evidence.take(n).drop_last() =~= evidence.take(n - 1));
        assert(evidence.take(n).last() == evidence[n - 1]);
        assert forall|k: int|
            0 <= k < n && (#[trigger] evidence[k]).url is Some && evidence[k].turn
                == turn implies is_source_of(
            turn_sources(evidence.take(n), turn, secs)[pages_of(evidence, turn, k) as int],
            evidence[k],
            secs,
        ) by {
            if k < n - 1 {
                lemma_pages_of(evidence, turn, n - 1, k);
            }
        }
    }
}

/// Every piece of evidence with a URL stands in the row of the turn that
/// collected it, in order, with its URL, its excerpt and the time, and the row
/// holds nothing else. The last row has the synthesis and the tokens of the
/// run.
pub proof fn law_evidence_stands_in_the_row_of_its_turn(
    report: ReportView,
    id: Seq<char>,
    secs: nat,
    turn: u32,
)
    requires
        1 <= turn <= report.turns_used,
    ensures
        ({
            let row = session_rows(report, id, secs)[turn - 1];
            let evidence = report.evidence;
            &&& row.evidence.len() == pages_of(evidence, turn, evidence.len() as int)
            &&& forall|k: int|
                0 <= k < evidence.len() && (#[trigger] evidence[k]).url is Some
                    && evidence[k].turn == turn ==> is_source_of(
                    row.evidence[pages_of(evidence, turn, k) as int],
                    evidence[k],
                    secs,
                )
            &&& turn == report.turns_used ==> {
                &&& row.synthesis == Some(synthesis_json(report.synthesis))
                &&& row.usage.prompt_tokens == report.usage.prompt_tokens
                &&& row.usage.completion_tokens == report.usage.completion_tokens
                &&& row.usage.total_tokens == report.usage.total_tokens
                &&& row.usage.reasoning_tokens == report.usage.reasoning_tokens
            }
        }),
{
    let evidence = report.evidence;
    lemma_turn_sources(evidence, turn, secs, evidence.len() as int);
    assert(evidence.take(evidence.len() as int) =~= evidence);
    assert(session_rows(report, id, secs)[turn - 1] == turn_row(report, id, turn, secs));
}

} // verus!
