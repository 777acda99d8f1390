//! Fan-out over both providers with a soft and a hard deadline.
//!
//! One leg for each query and provider. Failures of legs collect into the
//! output; partial success is success, and only the failure of every leg with
//! nothing merged fails the call. The fan-out is a state machine: the caller
//! runs the legs and the clock and hands their events in.

use vstd::prelude::*;
use crate::shared::types::search::{SearchInput, SearchOutput, SearchProvider, SearchProviderError,
    SearchResult, SearchStats, HARD_DEADLINE_SECS, SOFT_DEADLINE_SECS};
use crate::shared::web_engine_search::dedup::merge_sources_in_order;
use crate::text::{decimal_text, joined};
use crate::time::Duration;
#[allow(unused_imports)]
use crate::shared::types::search::{provider_id, Failure, Hit, Merged};
#[allow(unused_imports)]
use crate::shared::web_engine_search::ddg::rows_view;
#[allow(unused_imports)]
use crate::shared::web_engine_search::consensus::{law_merge_is_faithful,
    law_more_providers_come_first};
#[allow(unused_imports)]
use crate::shared::web_engine_search::dedup::{group_keys, merged, result_key};
#[allow(unused_imports)]
use crate::text::{decimal, has_text, is_blank, join, lemma_join_part, lemma_views_empty,
    lemma_views_push, length_to, occurs_at, precedes, views};
#[allow(unused_imports)]
use crate::time::seconds;

verus! {

/// The failure of a leg that ran out of time. It comes before any look at a
/// body, so a slow challenge page is still a timeout.
pub fn map_timeout(provider: SearchProvider, query: &str) -> (r: SearchProviderError)
    ensures
        r@ == (Failure::Timeout { provider, query: query@ }),
{
    SearchProviderError::Timeout { provider, query: query.to_owned() }
}

/// The failure of a leg whose transport failed: a timeout, or else an
/// upstream error.
pub fn map_transport_error(
    provider: SearchProvider,
    query: &str,
    is_timeout: bool,
    detail: String,
) -> (r: SearchProviderError)
    ensures
        r@ == if is_timeout {
            Failure::Timeout { provider, query: query@ }
        } else {
            Failure::Upstream { provider, detail: detail@ }
        },
{
    if is_timeout {
        map_timeout(provider, query)
    } else {
        SearchProviderError::Upstream { provider, detail }
    }
}

/// One failure in the message of a failed call.
pub open spec fn failure_entry(failure: (Seq<char>, Seq<char>)) -> Seq<char> {
    failure.0 + ": "@ + failure.1
}

/// The message of a failed call.
pub open spec fn failures_text(failures: Seq<(Seq<char>, Seq<char>)>) -> Seq<char> {
    join(Seq::new(failures.len(), |i: int| failure_entry(failures[i])), "; "@)
}

/// Writes failures as `id: message; id: message`.
pub fn all_failed_message(failures: &[(String, String)]) -> (r: String)
    ensures
        r@ == failures_text(views(failures@)),
{
    broadcast use {lemma_views_push, lemma_views_empty};

    let ghost entries = Seq::new(failures@.len(), |i: int| failure_entry(views(failures@)[i]));
    let mut parts: Vec<String> = Vec::new();
    let mut i: usize = 0;
    while i < failures.len()
        invariant
            i <= failures@.len(),
            entries == Seq::new(failures@.len(), |i: int| failure_entry(views(failures@)[i])),
            views(parts@) == entries.take(i as int),
        decreases failures@.len() - i,
    {
        let mut part = failures[i].0.clone();
        part.append(": ");
        part.append(failures[i].1.as_str());
        let ghost so_far = views(parts@);
        parts.push(part);
        assert(views(parts@) == so_far.push(entries[i as int]));
        i += 1;
        assert(views(parts@) =~= entries.take(i as int));
    }
    assert(views(parts@) =~= entries);
    joined(parts.as_slice(), "; ")
}

/// What a failure says in the message of a failed call.
pub open spec fn failure_detail(e: Failure) -> Seq<char> {
    match e {
        Failure::EmptyQuery => "empty query"@,
        Failure::TooManyQueries { got, max } => "too many queries: "@ + decimal(got) + " > "@
            + decimal(max),
        Failure::Challenge { detail, .. } => detail,
        Failure::Timeout { query, .. } => "timed out: "@ + query,
        Failure::Upstream { detail, .. } => detail,
        Failure::AllFailed { failures } => failures,
    }
}

/// What a failure says in the message of a failed call.
pub fn error_detail(err: &SearchProviderError) -> (r: String)
    ensures
        r@ == failure_detail(err@),
{
    match err {
        SearchProviderError::EmptyQuery => "empty query".to_owned(),
        SearchProviderError::TooManyQueries { got, max } => {
            let mut text = "too many queries: ".to_owned();
            let g = decimal_text(*got as u64);
            let m = decimal_text(*max as u64);
            text.append(g.as_str());
            text.append(" > ");
            text.append(m.as_str());
            text
        },
        SearchProviderError::Challenge { detail, .. } => detail.clone(),
        SearchProviderError::Timeout { query, .. } => {
            let mut text = "timed out: ".to_owned();
            text.append(query.as_str());
            text
        },
        SearchProviderError::Upstream { detail, .. } => detail.clone(),
        SearchProviderError::AllFailed { failures } => failures.clone(),
    }
}

/// The provider of a leg: even slots are Startpage, odd ones DuckDuckGo.
pub open spec fn slot_provider(slot: nat) -> SearchProvider {
    if slot % 2 == 0 {
        SearchProvider::Startpage
    } else {
        SearchProvider::DuckDuckGo
    }
}

/// The slot of a leg: by query in input order, Startpage before DuckDuckGo.
pub open spec fn leg_slot(query_index: nat, provider: SearchProvider) -> nat {
    if provider == SearchProvider::Startpage {
        query_index * 2
    } else {
        query_index * 2 + 1
    }
}

/// One leg to run: the place of its query and its provider.
#[derive(Debug, Clone, Copy, PartialEq, Eq, Structural)]
pub struct Leg {
    pub query_index: usize,
    pub provider: SearchProvider,
}

/// The legs of a fan-out over `n` queries.
pub open spec fn planned_legs(n: nat) -> Seq<Leg> {
    Seq::new(
        n * 2,
        |slot: int|
            Leg { query_index: (slot / 2) as usize, provider: slot_provider(slot as nat) },
    )
}

/// One leg that came to an end.
#[derive(Debug)]
pub struct SettledLeg {
    pub leg: Leg,
    pub outcome: Result<Vec<SearchResult>, SearchProviderError>,
}

/// What a settled leg says.
#[verifier::ext_equal]
pub struct SettledView {
    pub leg: Leg,
    pub outcome: Result<Seq<Hit>, Failure>,
}

impl View for SettledLeg {
    type V = SettledView;

    open spec fn view(&self) -> SettledView {
        SettledView { leg: self.leg, outcome: rows_view(self.outcome) }
    }
}

/// What a leg came to: the last report on its slot.
pub open spec fn slot_outcome(settled: Seq<SettledView>, slot: nat) -> Option<
    Result<Seq<Hit>, Failure>,
>
    decreases settled.len(),
{
    if settled.len() == 0 {
        None
    } else if leg_slot(settled.last().leg.query_index as nat, settled.last().leg.provider)
        == slot {
        Some(settled.last().outcome)
    } else {
        slot_outcome(settled.drop_last(), slot)
    }
}

/// The hits of the first `n` slots, in slot order.
pub open spec fn collected_hits(settled: Seq<SettledView>, n: nat) -> Seq<Hit>
    decreases n,
{
    if n == 0 {
        Seq::empty()
    } else {
        let before = collected_hits(settled, (n - 1) as nat);
        match slot_outcome(settled, (n - 1) as nat) {
            Some(Ok(hits)) => before + hits,
            _ => before,
        }
    }
}

/// The failures of the first `n` slots, in slot order. A slot without a
/// report ran out of time.
pub open spec fn collected_failures(
    queries: Seq<Seq<char>>,
    settled: Seq<SettledView>,
    n: nat,
) -> Seq<Failure>
    decreases n,
{
    if n == 0 {
        Seq::empty()
    } else {
        let before = collected_failures(queries, settled, (n - 1) as nat);
        match slot_outcome(settled, (n - 1) as nat) {
            Some(Ok(_)) => before,
            Some(Err(e)) => before.push(e),
            None => before.push(
                Failure::Timeout {
                    provider: slot_provider((n - 1) as nat),
                    query: queries[(n - 1) / 2],
                },
            ),
        }
    }
}

/// Who failed and how, for the message of a failed call.
pub open spec fn failure_line(e: Failure) -> (Seq<char>, Seq<char>) {
    (
        match e.owner() {
            Some(p) => provider_id(p),
            None => "leg"@,
        },
        failure_detail(e),
    )
}

/// What a fan-out returns.
#[verifier::ext_equal]
pub struct OutputView {
    pub results: Seq<Merged>,
    pub errors: Seq<Failure>,
    pub queries: nat,
    pub legs: nat,
    pub raw_hits: nat,
    pub merged: nat,
}

impl View for SearchOutput {
    type V = OutputView;

    open spec fn view(&self) -> OutputView {
        OutputView {
            results: views(self.results@),
            errors: views(self.errors@),
            queries: self.stats.queries as nat,
            legs: self.stats.legs as nat,
            raw_hits: self.stats.raw_hits as nat,
            merged: self.stats.merged as nat,
        }
    }
}

/// The outcome of a fan-out: the merged results of all legs cut to `top_k`,
/// with the failures beside them; a failure only where every leg failed and
/// nothing merged.
pub open spec fn fan_out_result(
    queries: Seq<Seq<char>>,
    top_k: nat,
    settled: Seq<SettledView>,
) -> Result<OutputView, Failure> {
    let legs = queries.len() * 2;
    let hits = collected_hits(settled, legs);
    let errors = collected_failures(queries, settled, legs);
    let all = merged(hits, queries);
    if all.len() == 0 && errors.len() == legs && legs > 0 {
        Err(
            Failure::AllFailed {
                failures: failures_text(
                    Seq::new(errors.len(), |i: int| failure_line(errors[i])),
                ),
            },
        )
    } else {
        Ok(
            OutputView {
                results: if all.len() > top_k {
                    all.take(top_k as int)
                } else {
                    all
                },
                errors,
                queries: queries.len(),
                legs,
                raw_hits: hits.len(),
                merged: all.len(),
            },
        )
    }
}

fn slot_of(leg: &Leg) -> (r: u128)
    ensures
        r == leg_slot(leg.query_index as nat, leg.provider),
{
    let base: u128 = leg.query_index as u128 * 2;
    if leg.provider == SearchProvider::Startpage {
        base
    } else {
        base + 1
    }
}

/// The place of the last report on a slot.
fn last_report(settled: &Vec<SettledLeg>, slot: u128) -> (r: Option<usize>)
    ensures
        match r {
            Some(i) => i < settled@.len() && slot_outcome(views(settled@), slot as nat) == Some(
                settled@[i as int]@.outcome,
            ),
            None => slot_outcome(views(settled@), slot as nat) is None,
        },
{
    let ghost all = views(settled@);
    let mut i: usize = settled.len();
    assert(all.take(i as int) =~= all);
    while i > 0
        invariant
            i <= settled@.len(),
            all == views(settled@),
            slot_outcome(all, slot as nat) == slot_outcome(all.take(i as int), slot as nat),
        decreases i,
    {
        assert(all.take(i as int).last() == settled@[i - 1]@);
        assert(all.take(i as int).drop_last() =~= all.take(i - 1));
        if slot_of(&settled[i - 1].leg) == slot {
            return Some(i - 1);
        }
        i -= 1;
    }
    None
}

fn push_rows(out: &mut Vec<SearchResult>, rows: &Vec<SearchResult>)
    ensures
        views(final(out)@) == views(old(out)@) + views(rows@),
{
    let ghost start = views(out@);
    let mut i: usize = 0;
    assert(start + views(rows@).take(0) =~= start);
    while i < rows.len()
        invariant
            i <= rows@.len(),
            views(out@) == start + views(rows@).take(i as int),
        decreases rows@.len() - i,
    {
        let ghost so_far = out@;
        let row = rows[i].clone();
        proof {
            lemma_views_push(so_far, row);
        }
        out.push(row);
        i += 1;
        assert(views(out@) =~= start + views(rows@).take(i as int));
    }
    assert(views(rows@).take(i as int) =~= views(rows@));
}

fn failure_lines(errors: &Vec<SearchProviderError>) -> (r: Vec<(String, String)>)
    ensures
        views(r@) == Seq::new(errors@.len(), |i: int| failure_line(views(errors@)[i])),
{
    broadcast use {lemma_views_push, lemma_views_empty};

    let ghost lines = Seq::new(errors@.len(), |i: int| failure_line(views(errors@)[i]));
    let mut out: Vec<(String, String)> = Vec::new();
    let mut i: usize = 0;
    while i < errors.len()
        invariant
            i <= errors@.len(),
            lines == Seq::new(errors@.len(), |i: int| failure_line(views(errors@)[i])),
            views(out@) == lines.take(i as int),
        decreases errors@.len() - i,
    {
        let id = match errors[i].provider() {
            Some(p) => p.id().to_owned(),
            None => "leg".to_owned(),
        };
        let detail = error_detail(&errors[i]);
        let ghost so_far = views(out@);
        out.push((id, detail));
        assert(views(out@) == so_far.push(lines[i as int]));
        i += 1;
        assert(views(out@) =~= lines.take(i as int));
    }
    assert(views(out@) =~= lines);
    out
}

/// Puts the reports of the legs together. Legs go by slot, never by the order
/// in which they came in; legs of equal queries keep slots of their own; a leg
/// without a report is a timeout.
pub fn settle(queries: &Vec<String>, top_k: usize, settled: &Vec<SettledLeg>) -> (r: Result<
    SearchOutput,
    SearchProviderError,
>)
    requires
        queries@.len() * 2 <= usize::MAX,
    ensures
        match r {
            Ok(out) => fan_out_result(views(queries@), top_k as nat, views(settled@)) == Ok::<
                OutputView,
                Failure,
            >(out@),
            Err(e) => fan_out_result(views(queries@), top_k as nat, views(settled@)) == Err::<
                OutputView,
                Failure,
            >(e@),
        },
{
    let ghost qs = views(queries@);
    let ghost reports = views(settled@);
    let legs: usize = queries.len() * 2;
    let mut hits: Vec<SearchResult> = Vec::new();
    let mut errors: Vec<SearchProviderError> = Vec::new();
    proof {
        lemma_views_empty(hits@);
        lemma_views_empty(errors@);
    }
    let mut slot: usize = 0;
    while slot < legs
        invariant
            slot <= legs,
            legs == queries@.len() * 2,
            qs == views(queries@),
            reports == views(settled@),
            views(hits@) == collected_hits(reports, slot as nat),
            views(errors@) == collected_failures(qs, reports, slot as nat),
        decreases legs - slot,
    {
        let ghost before = errors@;
        match last_report(settled, slot as u128) {
            Some(i) => match &settled[i].outcome {
                Ok(rows) => {
                    push_rows(&mut hits, rows);
                },
                Err(e) => {
                    let copy = e.clone();
                    proof {
                        lemma_views_push(before, copy);
                    }
                    errors.push(copy);
                },
            },
            None => {
                let provider = if slot % 2 == 0 {
                    SearchProvider::Startpage
                } else {
                    SearchProvider::DuckDuckGo
                };
                let e = map_timeout(provider, queries[slot / 2].as_str());
                proof {
                    lemma_views_push(before, e);
                }
                errors.push(e);
            },
        }
        slot += 1;
    }
    let raw_hits: usize = hits.len();
    proof {
        assert(views(hits@).len() == hits@.len());
        assert(views(errors@).len() == errors@.len());
    }
    let mut results = merge_sources_in_order(hits, queries.as_slice());
    let merged_count: usize = results.len();
    assert(views(results@).len() == results@.len());
    if results.is_empty() && errors.len() == legs && legs > 0 {
        let lines = failure_lines(&errors);
        return Err(
            SearchProviderError::AllFailed { failures: all_failed_message(lines.as_slice()) },
        );
    }
    let ghost all = results@;
    if results.len() > top_k {
        results.truncate(top_k);
        assert(views(results@) =~= views(all).take(top_k as int));
    }
    Ok(
        SearchOutput {
            results,
            errors,
            stats: SearchStats {
                queries: queries.len(),
                legs,
                raw_hits,
                merged: merged_count,
            },
        },
    )
}

/// What a running fan-out waits for: the next leg, or the end of a span of
/// time.
#[derive(Debug)]
pub enum Wait {
    /// Nothing: put the reports together.
    Finish,
    /// The next leg, or the soft deadline after this span.
    LegOrSoft(Duration),
    /// The next leg, or the hard deadline after this span.
    LegOrHard(Duration),
}

/// What a wait says, with spans in nanoseconds.
#[verifier::ext_equal]
pub enum WaitView {
    Finish,
    LegOrSoft(nat),
    LegOrHard(nat),
}

impl View for Wait {
    type V = WaitView;

    open spec fn view(&self) -> WaitView {
        match *self {
            Wait::Finish => WaitView::Finish,
            Wait::LegOrSoft(d) => WaitView::LegOrSoft(d@),
            Wait::LegOrHard(d) => WaitView::LegOrHard(d@),
        }
    }
}

/// What is left of a span.
pub open spec fn left_of(span: nat, elapsed: nat) -> nat {
    if elapsed >= span {
        0
    } else {
        (span - elapsed) as nat
    }
}

/// A running fan-out.
#[derive(Debug)]
pub struct FanOut {
    pub queries: Vec<String>,
    pub top_k: usize,
    /// The legs that came to an end, in the order in which they did.
    pub settled: Vec<SettledLeg>,
    /// Whether a leg succeeded.
    pub succeeded: bool,
    /// Whether the soft deadline has passed.
    pub soft_fired: bool,
}

/// What a running fan-out holds.
#[verifier::ext_equal]
pub struct FanOutView {
    pub queries: Seq<Seq<char>>,
    pub top_k: nat,
    pub settled: Seq<SettledView>,
    pub succeeded: bool,
    pub soft_fired: bool,
}

impl View for FanOut {
    type V = FanOutView;

    open spec fn view(&self) -> FanOutView {
        FanOutView {
            queries: views(self.queries@),
            top_k: self.top_k as nat,
            settled: views(self.settled@),
            succeeded: self.succeeded,
            soft_fired: self.soft_fired,
        }
    }
}

impl FanOutView {
    /// The fan-out after one more leg came to an end.
    pub open spec fn with_report(self, leg: Leg, outcome: Result<Seq<Hit>, Failure>) -> FanOutView {
        FanOutView {
            queries: self.queries,
            top_k: self.top_k,
            settled: self.settled.push(SettledView { leg, outcome }),
            succeeded: self.succeeded || outcome is Ok,
            soft_fired: self.soft_fired,
        }
    }

    /// What the fan-out waits for, `elapsed` nanoseconds after its start.
    pub open spec fn waits(self, elapsed: nat) -> WaitView {
        let remaining = left_of(seconds(HARD_DEADLINE_SECS as nat), elapsed);
        if self.settled.len() >= self.queries.len() * 2 || remaining == 0 {
            WaitView::Finish
        } else if !self.soft_fired {
            WaitView::LegOrSoft(left_of(seconds(SOFT_DEADLINE_SECS as nat), elapsed))
        } else {
            WaitView::LegOrHard(remaining)
        }
    }
}

impl FanOut {
    /// A fan-out with no leg at its end yet.
    pub fn start(input: SearchInput) -> (r: FanOut)
        ensures
            r@ == (FanOutView {
                queries: input@.queries,
                top_k: input@.top_k,
                settled: Seq::empty(),
                succeeded: false,
                soft_fired: false,
            }),
    {
        let settled: Vec<SettledLeg> = Vec::new();
        proof {
            lemma_views_empty(settled@);
        }
        FanOut {
            queries: input.queries,
            top_k: input.top_k,
            settled,
            succeeded: false,
            soft_fired: false,
        }
    }

    /// The legs to run: by query in input order, Startpage before DuckDuckGo.
    pub fn legs(&self) -> (r: Vec<Leg>)
        requires
            self.queries@.len() * 2 <= usize::MAX,
        ensures
            r@ == planned_legs(self@.queries.len()),
    {
        let mut out: Vec<Leg> = Vec::new();
        let mut i: usize = 0;
        while i < self.queries.len()
            invariant
                i <= self.queries@.len(),
                self.queries@.len() * 2 <= usize::MAX,
                out@ == planned_legs(i as nat),
            decreases self.queries@.len() - i,
        {
            out.push(Leg { query_index: i, provider: SearchProvider::Startpage });
            out.push(Leg { query_index: i, provider: SearchProvider::DuckDuckGo });
            i += 1;
            assert(out@ =~= planned_legs(i as nat));
        }
        out
    }

    /// What to wait for, `elapsed` after the start. All legs at their end, or
    /// the hard deadline, finish the fan-out.
    pub fn wait(&self, elapsed: &Duration) -> (r: Wait)
        requires
            self.queries@.len() * 2 <= usize::MAX,
        ensures
            r@ == self@.waits(elapsed@),
    {
        if self.settled.len() >= self.queries.len() * 2 {
            return Wait::Finish;
        }
        let remaining = Duration::from_secs(HARD_DEADLINE_SECS).saturating_sub(elapsed);
        if remaining.is_zero() {
            return Wait::Finish;
        }
        if !self.soft_fired {
            Wait::LegOrSoft(Duration::from_secs(SOFT_DEADLINE_SECS).saturating_sub(elapsed))
        } else {
            Wait::LegOrHard(remaining)
        }
    }

    /// Takes in a leg that came to an end.
    pub fn on_leg(&mut self, leg: Leg, outcome: Result<Vec<SearchResult>, SearchProviderError>)
        ensures
            final(self)@ == old(self)@.with_report(leg, rows_view(outcome)),
    {
        let ghost before = self.settled@;
        if outcome.is_ok() {
            self.succeeded = true;
        }
        let report = SettledLeg { leg, outcome };
        proof {
            lemma_views_push(before, report);
        }
        self.settled.push(report);
    }

    /// Takes in a leg that panicked: an upstream error on its own slot.
    pub fn on_panic(&mut self, leg: Leg)
        ensures
            final(self)@ == old(self)@.with_report(
                leg,
                Err(Failure::Upstream { provider: leg.provider, detail: "leg panicked"@ }),
            ),
    {
        self.on_leg(
            leg,
            Err(
                SearchProviderError::Upstream {
                    provider: leg.provider,
                    detail: "leg panicked".to_owned(),
                },
            ),
        );
    }

    /// Takes in the soft deadline. Says whether to finish: one success is
    /// enough from here on, but only at this moment.
    pub fn on_soft_deadline(&mut self) -> (finish: bool)
        ensures
            finish == old(self)@.succeeded,
            final(self)@ == (FanOutView { soft_fired: true, ..old(self)@ }),
    {
        self.soft_fired = true;
        self.succeeded
    }

    /// Puts the reports together. Legs that did not come to an end are
    /// timeouts.
    pub fn finish(self) -> (r: Result<SearchOutput, SearchProviderError>)
        requires
            self.queries@.len() * 2 <= usize::MAX,
        ensures
            match r {
                Ok(out) => fan_out_result(self@.queries, self@.top_k, self@.settled) == Ok::<
                    OutputView,
                    Failure,
                >(out@),
                Err(e) => fan_out_result(self@.queries, self@.top_k, self@.settled) == Err::<
                    OutputView,
                    Failure,
                >(e@),
            },
    {
        settle(&self.queries, self.top_k, &self.settled)
    }
}

/// The number of the first `n` slots whose leg succeeded.
pub open spec fn successes(settled: Seq<SettledView>, n: nat) -> nat
    decreases n,
{
    if n == 0 {
        0
    } else if slot_outcome(settled, (n - 1) as nat) matches Some(Ok(_)) {
        successes(settled, (n - 1) as nat) + 1
    } else {
        successes(settled, (n - 1) as nat)
    }
}

proof fn lemma_failures_complement(queries: Seq<Seq<char>>, settled: Seq<SettledView>, n: nat)
    ensures
        collected_failures(queries, settled, n).len() + successes(settled, n) == n,
        successes(settled, n) == 0 ==> collected_hits(settled, n).len() == 0,
    decreases n,
{
    if n > 0 {
        lemma_failures_complement(queries, settled, (n - 1) as nat);
    }
}

/// A fan-out fails only where every leg failed; then it names all of them.
/// With at least one query, it fails exactly where no leg succeeded. What it
/// returns holds at most `top_k` results, and one entry for each leg that
/// failed.
pub proof fn law_partial_success_is_success(
    queries: Seq<Seq<char>>,
    top_k: nat,
    settled: Seq<SettledView>,
)
    requires
        queries.len() > 0,
    ensures
        fan_out_result(queries, top_k, settled) is Err <==> successes(
            settled,
            queries.len() * 2,
        ) == 0,
        match fan_out_result(queries, top_k, settled) {
            Ok(out) => {
                &&& out.results.len() <= top_k
                &&& out.errors.len() + successes(settled, out.legs) == out.legs
                &&& out.legs == queries.len() * 2
            },
            Err(e) => e.status() == 503,
        },
{
    let legs = queries.len() * 2;
    lemma_failures_complement(queries, settled, legs);
    let hits = collected_hits(settled, legs);
    if successes(settled, legs) == 0 {
        lemma_nothing_merged(hits, queries);
    }
}

proof fn lemma_nothing_merged(hits: Seq<Hit>, queries: Seq<Seq<char>>)
    requires
        hits.len() == 0,
    ensures
        merged(hits, queries).len() == 0,
{
    let order = crate::shared::web_engine_search::dedup::query_order(hits, queries);
    lemma_no_provider_hits(hits, SearchProvider::Startpage, order, order.len());
    lemma_no_provider_hits(hits, SearchProvider::DuckDuckGo, order, order.len());
}

proof fn lemma_no_provider_hits(
    hits: Seq<Hit>,
    p: SearchProvider,
    order: Seq<Seq<char>>,
    n: nat,
)
    requires
        hits.len() == 0,
    ensures
        crate::shared::web_engine_search::dedup::provider_hits(hits, p, order, n).len() == 0,
    decreases n,
{
    if n > 0 {
        lemma_no_provider_hits(hits, p, order, (n - 1) as nat);
    }
}

proof fn lemma_slot_outcome_swap(settled: Seq<SettledView>, i: int, slot: nat)
    requires
        0 <= i < settled.len() - 1,
        settled[i].leg != settled[i + 1].leg,
    ensures
        slot_outcome(settled.update(i, settled[i + 1]).update(i + 1, settled[i]), slot)
            == slot_outcome(settled, slot),
    decreases settled.len(),
{
    let two = settled.update(i, settled[i + 1]).update(i + 1, settled[i]);
    if i + 1 < settled.len() - 1 {
        let front = settled.drop_last();
        assert(two.drop_last() =~= front.update(i, front[i + 1]).update(i + 1, front[i]));
        assert(two.last() == settled.last());
        lemma_slot_outcome_swap(front, i, slot);
    } else {
        assert(two.drop_last().drop_last() =~= settled.drop_last().drop_last());
        assert(two.drop_last().last() == settled[i + 1]);
        assert(settled.drop_last().last() == settled[i]);
        reveal_with_fuel(slot_outcome, 3);
    }
}

proof fn lemma_same_reports(
    queries: Seq<Seq<char>>,
    a: Seq<SettledView>,
    b: Seq<SettledView>,
    n: nat,
)
    requires
        forall|slot: nat| #[trigger] slot_outcome(a, slot) == slot_outcome(b, slot),
    ensures
        collected_hits(a, n) == collected_hits(b, n),
        collected_failures(queries, a, n) == collected_failures(queries, b, n),
    decreases n,
{
    if n > 0 {
        lemma_same_reports(queries, a, b, (n - 1) as nat);
        assert(slot_outcome(a, (n - 1) as nat) == slot_outcome(b, (n - 1) as nat));
    }
}

/// The order in which legs come to their end does not matter: two
/// neighbouring reports of different legs may change places.
pub proof fn law_completion_order_does_not_matter(
    queries: Seq<Seq<char>>,
    top_k: nat,
    settled: Seq<SettledView>,
    i: int,
)
    requires
        0 <= i < settled.len() - 1,
        settled[i].leg != settled[i + 1].leg,
    ensures
        fan_out_result(
            queries,
            top_k,
            settled.update(i, settled[i + 1]).update(i + 1, settled[i]),
        ) == fan_out_result(queries, top_k, settled),
{
    let two = settled.update(i, settled[i + 1]).update(i + 1, settled[i]);
    assert forall|slot: nat| #[trigger] slot_outcome(settled, slot) == slot_outcome(two, slot) by {
        lemma_slot_outcome_swap(settled, i, slot);
    }
    lemma_same_reports(queries, settled, two, queries.len() * 2);
}

/// A running fan-out is over no later than the hard deadline, and waits for
/// the soft one no longer than that.
pub proof fn law_fan_out_ends_in_time(run: FanOutView, elapsed: nat)
    ensures
        elapsed >= seconds(HARD_DEADLINE_SECS as nat) ==> run.waits(elapsed) is Finish,
        match run.waits(elapsed) {
            WaitView::Finish => true,
            WaitView::LegOrSoft(span) => span <= seconds(SOFT_DEADLINE_SECS as nat),
            WaitView::LegOrHard(span) => elapsed + span == seconds(HARD_DEADLINE_SECS as nat),
        },
{
}

/// The results of a fan-out are the best of what was merged: the front of the
/// consensus ranking, as many as were asked for or as there are. Whatever was
/// cut is outranked by whatever was kept.
pub proof fn law_the_best_results_are_kept(
    queries: Seq<Seq<char>>,
    top_k: nat,
    settled: Seq<SettledView>,
)
    ensures
        fan_out_result(queries, top_k, settled) matches Ok(out) ==> {
            let all = merged(collected_hits(settled, queries.len() * 2), queries);
            &&& out.merged == all.len()
            &&& out.results.len() == if all.len() < top_k {
                all.len()
            } else {
                top_k
            }
            &&& out.results.is_prefix_of(all)
            &&& forall|i: int, j: int|
                #![trigger out.results[i], all[j]]
                0 <= i < out.results.len() <= j < all.len() ==> {
                    let kept = out.results[i];
                    let cut = all[j];
                    &&& kept.providers.len() >= cut.providers.len()
                    &&& kept.providers.len() == cut.providers.len() ==> kept.best_rank
                        <= cut.best_rank
                    &&& kept.providers.len() == cut.providers.len() && kept.best_rank
                        == cut.best_rank ==> precedes(kept.display_url, cut.display_url)
                }
        },
{
    let all = merged(collected_hits(settled, queries.len() * 2), queries);
    if let Ok(out) = fan_out_result(queries, top_k, settled) {
        assert(all.subrange(0, out.results.len() as int) =~= out.results);
        assert forall|i: int, j: int|
            #![trigger out.results[i], all[j]]
            0 <= i < out.results.len() <= j < all.len() implies {
            let kept = out.results[i];
            let cut = all[j];
            &&& kept.providers.len() >= cut.providers.len()
            &&& kept.providers.len() == cut.providers.len() ==> kept.best_rank <= cut.best_rank
            &&& kept.providers.len() == cut.providers.len() && kept.best_rank == cut.best_rank
                ==> precedes(kept.display_url, cut.display_url)
        } by {
            assert(out.results[i] == all[i]);
            law_more_providers_come_first(
                collected_hits(settled, queries.len() * 2),
                queries,
                i,
                j,
            );
        }
    }
}

/// Whether no two reports are of one leg, and every report is of a leg of the
/// queries.
pub open spec fn one_report_each(settled: Seq<SettledView>, queries: nat) -> bool {
    &&& forall|i: int| 0 <= i < settled.len() ==> (#[trigger] settled[i]).leg.query_index < queries
    &&& forall|i: int, j: int|
        0 <= i < j < settled.len() ==> (#[trigger] settled[i]).leg != (#[trigger] settled[j]).leg
}

proof fn lemma_slots_tell_legs_apart(a: Leg, b: Leg)
    ensures
        leg_slot(a.query_index as nat, a.provider) == leg_slot(b.query_index as nat, b.provider)
            <==> a == b,
{
}

proof fn lemma_report_of(settled: Seq<SettledView>, k: int, queries: nat)
    requires
        0 <= k < settled.len(),
        one_report_each(settled, queries),
    ensures
        slot_outcome(settled, leg_slot(settled[k].leg.query_index as nat, settled[k].leg.provider))
            == Some(settled[k].outcome),
    decreases settled.len(),
{
    let n = settled.len() - 1;
    lemma_slots_tell_legs_apart(settled[k].leg, settled[n].leg);
    if k < n {
        let front = settled.drop_last();
        assert(settled[k].leg != settled[n].leg);
        assert forall|i: int| 0 <= i < front.len() implies (#[trigger] front[i]).leg.query_index
            < queries by {
            assert(front[i] == settled[i]);
        }
        assert forall|i: int, j: int| 0 <= i < j < front.len() implies (#[trigger] front[i]).leg
            != (#[trigger] front[j]).leg by {
            assert(settled[i].leg != settled[j].leg);
        }
        lemma_report_of(front, k, queries);
    }
}

proof fn lemma_no_report_of(settled: Seq<SettledView>, leg: Leg)
    requires
        forall|k: int| 0 <= k < settled.len() ==> (#[trigger] settled[k]).leg != leg,
    ensures
        slot_outcome(settled, leg_slot(leg.query_index as nat, leg.provider)) is None,
    decreases settled.len(),
{
    if settled.len() > 0 {
        let n = settled.len() - 1;
        assert(settled[n].leg != leg);
        lemma_slots_tell_legs_apart(settled[n].leg, leg);
        assert forall|k: int| 0 <= k < settled.drop_last().len() implies (
        #[trigger] settled.drop_last()[k]).leg != leg by {
            assert(settled.drop_last()[k] == settled[k]);
        }
        lemma_no_report_of(settled.drop_last(), leg);
    }
}

proof fn lemma_collected(
    queries: Seq<Seq<char>>,
    settled: Seq<SettledView>,
    n: nat,
    slot: nat,
    h: Hit,
)
    requires
        slot < n,
    ensures
        match slot_outcome(settled, slot) {
            Some(Ok(hits)) => hits.contains(h) ==> collected_hits(settled, n).contains(h),
            Some(Err(e)) => collected_failures(queries, settled, n).contains(e),
            None => collected_failures(queries, settled, n).contains(
                Failure::Timeout {
                    provider: slot_provider(slot),
                    query: queries[slot as int / 2],
                },
            ),
        },
    decreases n,
{
    let m = (n - 1) as nat;
    let hits = collected_hits(settled, m);
    let failures = collected_failures(queries, settled, m);
    let all_hits = collected_hits(settled, n);
    let all_failures = collected_failures(queries, settled, n);
    if slot == m {
        match slot_outcome(settled, slot) {
            Some(Ok(rows)) => {
                if rows.contains(h) {
                    let k = choose|k: int| 0 <= k < rows.len() && rows[k] == h;
                    assert(all_hits[hits.len() + k] == h);
                }
            },
            _ => {
                assert(all_failures[failures.len() as int] == all_failures.last());
            },
        }
    } else {
        lemma_collected(queries, settled, m, slot, h);
        if hits.contains(h) {
            let k = choose|k: int| 0 <= k < hits.len() && hits[k] == h;
            assert(all_hits[k] == h);
        }
        assert forall|e: Failure| failures.contains(e) implies all_failures.contains(e) by {
            let k = choose|k: int| 0 <= k < failures.len() && failures[k] == e;
            assert(all_failures[k] == e);
        }
    }
}

/// Every leg is accounted for. The failure that a leg reports is among the
/// failures, and a leg that does not report is there as timed out, with its
/// provider and query. Each hit that a leg reports, if it has an address, has
/// its place among the results unless it was cut.
pub proof fn law_every_leg_is_accounted_for(
    queries: Seq<Seq<char>>,
    top_k: nat,
    settled: Seq<SettledView>,
)
    requires
        one_report_each(settled, queries.len()),
    ensures
        fan_out_result(queries, top_k, settled) matches Ok(out) ==> {
            &&& forall|k: int|
                0 <= k < settled.len() ==> ((#[trigger] settled[k]).outcome matches Err(e)
                    ==> out.errors.contains(e))
            &&& forall|leg: Leg|
                #![trigger leg.query_index]
                leg.query_index < queries.len() && (forall|k: int|
                    0 <= k < settled.len() ==> (#[trigger] settled[k]).leg != leg)
                    ==> out.errors.contains(
                    Failure::Timeout {
                        provider: leg.provider,
                        query: queries[leg.query_index as int],
                    },
                )
            &&& forall|k: int, h: Hit|
                #![trigger settled[k], result_key(h.url)]
                0 <= k < settled.len() && out.merged <= top_k && !is_blank(result_key(h.url)) && (
                settled[k].outcome matches Ok(hits) && hits.contains(h)) ==> exists|i: int|
                    #![trigger out.results[i]]
                    0 <= i < out.results.len() && out.results[i].canonical_url == result_key(h.url)
        },
{
    let n = queries.len() * 2;
    let hits = collected_hits(settled, n);
    let all = merged(hits, queries);
    if let Ok(out) = fan_out_result(queries, top_k, settled) {
        assert forall|k: int|
            0 <= k < settled.len() && (#[trigger] settled[k]).outcome is Err implies out.errors.contains(
            settled[k].outcome->Err_0,
        ) by {
            let leg = settled[k].leg;
            lemma_report_of(settled, k, queries.len());
            lemma_collected(
                queries,
                settled,
                n,
                leg_slot(leg.query_index as nat, leg.provider),
                arbitrary(),
            );
        }
        assert forall|leg: Leg|
            #![trigger leg.query_index]
            leg.query_index < queries.len() && (forall|k: int|
                0 <= k < settled.len() ==> (#[trigger] settled[k]).leg
                    != leg) implies out.errors.contains(
            Failure::Timeout {
                provider: leg.provider,
                query: queries[leg.query_index as int],
            },
        ) by {
            lemma_no_report_of(settled, leg);
            let slot = leg_slot(leg.query_index as nat, leg.provider);
            assert(slot_provider(slot) == leg.provider);
            assert(slot as int / 2 == leg.query_index);
            lemma_collected(queries, settled, n, slot, arbitrary());
        }
        assert forall|k: int, h: Hit|
            #![trigger settled[k], result_key(h.url)]
            0 <= k < settled.len() && out.merged <= top_k && !is_blank(result_key(h.url)) && (
            settled[k].outcome matches Ok(hits) && hits.contains(h)) implies exists|i: int|
                #![trigger out.results[i]]
                0 <= i < out.results.len() && out.results[i].canonical_url == result_key(h.url) by {
            let leg = settled[k].leg;
            lemma_report_of(settled, k, queries.len());
            lemma_collected(
                queries,
                settled,
                n,
                leg_slot(leg.query_index as nat, leg.provider),
                h,
            );
            let m = choose|m: int| 0 <= m < hits.len() && hits[m] == h;
            law_merge_is_faithful(hits, queries);
            assert(group_keys(all).contains(result_key(hits[m].url)));
            let i = choose|i: int|
                0 <= i < group_keys(all).len() && group_keys(all)[i] == result_key(h.url);
            assert(out.results[i] == all[i]);
        }
    }
}

/// The slots of the legs that failed, in order.
pub open spec fn failed_slots(settled: Seq<SettledView>, n: nat) -> Seq<nat>
    decreases n,
{
    if n == 0 {
        Seq::empty()
    } else if slot_outcome(settled, (n - 1) as nat) matches Some(Ok(_)) {
        failed_slots(settled, (n - 1) as nat)
    } else {
        failed_slots(settled, (n - 1) as nat).push((n - 1) as nat)
    }
}

proof fn lemma_failed_slots(queries: Seq<Seq<char>>, settled: Seq<SettledView>, n: nat)
    ensures
        failed_slots(settled, n).len() == collected_failures(queries, settled, n).len(),
        forall|i: int|
            #![trigger failed_slots(settled, n)[i]]
            0 <= i < failed_slots(settled, n).len() ==> failed_slots(settled, n)[i] < n && (
            slot_outcome(settled, failed_slots(settled, n)[i]) matches Some(o)
                ==> o == Err::<Seq<Hit>, Failure>(collected_failures(queries, settled, n)[i])),
        forall|i: int, j: int|
            #![trigger failed_slots(settled, n)[i], failed_slots(settled, n)[j]]
            0 <= i < j < failed_slots(settled, n).len() ==> failed_slots(settled, n)[i]
                < failed_slots(settled, n)[j],
    decreases n,
{
    if n > 0 {
        lemma_failed_slots(queries, settled, (n - 1) as nat);
    }
}

/// The failures stand in the order of the legs: of two legs that reported one,
/// the failure of the earlier query comes first, and for one query that of
/// Startpage.
pub proof fn law_failures_stand_in_leg_order(
    queries: Seq<Seq<char>>,
    top_k: nat,
    settled: Seq<SettledView>,
    a: int,
    b: int,
)
    requires
        one_report_each(settled, queries.len()),
        0 <= a < settled.len(),
        0 <= b < settled.len(),
        settled[a].outcome is Err,
        settled[b].outcome is Err,
        settled[a].leg.query_index < settled[b].leg.query_index || (settled[a].leg.query_index
            == settled[b].leg.query_index && settled[a].leg.provider == SearchProvider::Startpage
            && settled[b].leg.provider == SearchProvider::DuckDuckGo),
    ensures
        fan_out_result(queries, top_k, settled) matches Ok(out) ==> exists|i: int, j: int|
            #![trigger out.errors[i], out.errors[j]]
            0 <= i < j < out.errors.len() && out.errors[i] == settled[a].outcome->Err_0
                && out.errors[j] == settled[b].outcome->Err_0,
{
    let n = queries.len() * 2;
    let x = leg_slot(settled[a].leg.query_index as nat, settled[a].leg.provider);
    let y = leg_slot(settled[b].leg.query_index as nat, settled[b].leg.provider);
    lemma_report_of(settled, a, queries.len());
    lemma_report_of(settled, b, queries.len());
    lemma_failed_slots(queries, settled, n);
    let slots = failed_slots(settled, n);
    assert(x < y < n);
    let i = lemma_is_failed_slot(settled, n, x);
    let j = lemma_is_failed_slot(settled, n, y);
    assert(slots[i] == x && slots[j] == y);
    if let Ok(out) = fan_out_result(queries, top_k, settled) {
        assert(out.errors[i] == settled[a].outcome->Err_0);
        assert(out.errors[j] == settled[b].outcome->Err_0);
        if j < i {
            assert(slots[j] < slots[i]);
        }
    }
}

proof fn lemma_is_failed_slot(settled: Seq<SettledView>, n: nat, slot: nat) -> (i: int)
    requires
        slot < n,
        !(slot_outcome(settled, slot) matches Some(Ok(_))),
    ensures
        0 <= i < failed_slots(settled, n).len(),
        failed_slots(settled, n)[i] == slot,
    decreases n,
{
    if slot == n - 1 {
        failed_slots(settled, n).len() - 1
    } else {
        lemma_is_failed_slot(settled, (n - 1) as nat, slot)
    }
}

/// When every leg failed, the failure names the provider and the reason of
/// each.
pub proof fn law_a_failed_fan_out_names_every_failure(
    queries: Seq<Seq<char>>,
    top_k: nat,
    settled: Seq<SettledView>,
    k: int,
)
    requires
        one_report_each(settled, queries.len()),
        0 <= k < settled.len(),
    ensures
        fan_out_result(queries, top_k, settled) matches Err(failure) ==> {
            &&& settled[k].outcome is Err
            &&& failure matches Failure::AllFailed { failures } && has_text(
                failures,
                failure_detail(settled[k].outcome->Err_0),
            ) && (settled[k].outcome->Err_0.owner() matches Some(p) ==> has_text(
                failures,
                provider_id(p),
            ))
        },
{
    let n = queries.len() * 2;
    if fan_out_result(queries, top_k, settled) is Err {
        let leg = settled[k].leg;
        let slot = leg_slot(leg.query_index as nat, leg.provider);
        lemma_report_of(settled, k, queries.len());
        lemma_failures_complement(queries, settled, n);
        lemma_no_success(settled, n, slot);
        lemma_collected(queries, settled, n, slot, arbitrary());
        let errors = collected_failures(queries, settled, n);
        let lines = Seq::new(errors.len(), |i: int| failure_line(errors[i]));
        let entries = Seq::new(lines.len(), |i: int| failure_entry(lines[i]));
        let e = settled[k].outcome->Err_0;
        let i = choose|i: int| 0 <= i < errors.len() && errors[i] == e;
        lemma_join_part(entries, "; "@, i);
        let text = failures_text(lines);
        let at = length_to(entries, i) + i * "; "@.len();
        let entry = failure_entry(lines[i]);
        assert(entries[i] == entry);
        let name = lines[i].0;
        assert(entry.subrange(0, name.len() as int) =~= name);
        let gap = (name.len() + ": "@.len()) as int;
        assert(entry.subrange(gap, entry.len() as int) =~= lines[i].1);
        assert(text.subrange(at, at + entry.len()) == entry);
        assert(text.subrange(at, at + name.len()) =~= entry.subrange(0, name.len() as int));
        assert(occurs_at(text, name, at));
        let from = at + gap;
        assert(text.subrange(from, from + lines[i].1.len()) =~= entry.subrange(
            gap,
            entry.len() as int,
        ));
        assert(occurs_at(text, lines[i].1, from));
    }
}

proof fn lemma_no_success(settled: Seq<SettledView>, n: nat, slot: nat)
    requires
        slot < n,
        successes(settled, n) == 0,
    ensures
        !(slot_outcome(settled, slot) matches Some(Ok(_))),
    decreases n,
{
    if slot < n - 1 {
        lemma_no_success(settled, (n - 1) as nat, slot);
    }
}

/// Every query is asked of both providers, each once: query after query, of
/// Startpage first.
pub proof fn law_every_query_is_asked_of_both(n: nat, query_index: usize)
    requires
        n * 2 <= usize::MAX,
        query_index < n,
    ensures
        planned_legs(n).len() == 2 * n,
        planned_legs(n)[2 * query_index] == (Leg {
            query_index,
            provider: SearchProvider::Startpage,
        }),
        planned_legs(n)[2 * query_index + 1] == (Leg {
            query_index,
            provider: SearchProvider::DuckDuckGo,
        }),
{
}

/// A report that comes in is one more: a success adds its hits to those that
/// are merged, and the fan-out knows of a success exactly when it has one.
pub proof fn law_reports_add_up(
    run: FanOutView,
    leg: Leg,
    outcome: Result<Seq<Hit>, Failure>,
)
    requires
        run.succeeded <==> exists|k: int|
            0 <= k < run.settled.len() && (#[trigger] run.settled[k]).outcome is Ok,
        leg.query_index < run.queries.len(),
        forall|k: int| 0 <= k < run.settled.len() ==> (#[trigger] run.settled[k]).leg != leg,
    ensures
        ({
            let after = run.with_report(leg, outcome);
            &&& after.queries == run.queries && after.top_k == run.top_k
            &&& after.settled.len() == run.settled.len() + 1
            &&& run.settled.is_prefix_of(after.settled)
            &&& after.settled.last().leg == leg && after.settled.last().outcome == outcome
            &&& after.succeeded <==> exists|k: int|
                0 <= k < after.settled.len() && (#[trigger] after.settled[k]).outcome is Ok
            &&& outcome matches Ok(hits) ==> (fan_out_result(
                after.queries,
                after.top_k,
                after.settled,
            ) matches Ok(out) && out.raw_hits == collected_hits(
                run.settled,
                run.queries.len() * 2,
            ).len() + hits.len())
        }),
{
    let after = run.with_report(leg, outcome);
    let n = run.queries.len() * 2;
    assert(after.settled.subrange(0, run.settled.len() as int) =~= run.settled);
    assert(after.settled[run.settled.len() as int].outcome == outcome);
    if run.succeeded {
        let k = choose|k: int|
            0 <= k < run.settled.len() && (#[trigger] run.settled[k]).outcome is Ok;
        assert(after.settled[k] == run.settled[k]);
    }
    if exists|k: int| 0 <= k < after.settled.len() && (#[trigger] after.settled[k]).outcome is Ok {
        let k = choose|k: int|
            0 <= k < after.settled.len() && (#[trigger] after.settled[k]).outcome is Ok;
        if k < run.settled.len() {
            assert(after.settled[k] == run.settled[k]);
        }
    }
    if let Ok(hits) = outcome {
        let slot = leg_slot(leg.query_index as nat, leg.provider);
        lemma_no_report_of(run.settled, leg);
        lemma_one_more_report(run.settled, after.settled.last(), n);
        lemma_failures_complement(run.queries, after.settled, n);
        assert(after.settled.drop_last() =~= run.settled);
        assert(slot_outcome(after.settled, slot) == Some(outcome));
        if successes(after.settled, n) == 0 {
            lemma_no_success(after.settled, n, slot);
        }
    }
}

proof fn lemma_one_more_report(settled: Seq<SettledView>, report: SettledView, n: nat)
    requires
        report.outcome is Ok,
        slot_outcome(settled, leg_slot(report.leg.query_index as nat, report.leg.provider)) is None,
    ensures
        collected_hits(settled.push(report), n).len() == collected_hits(settled, n).len() + if (
        leg_slot(report.leg.query_index as nat, report.leg.provider) < n) {
            (report.outcome->Ok_0).len()
        } else {
            0
        },
    decreases n,
{
    assert(settled.push(report).drop_last() =~= settled);
    if n > 0 {
        lemma_one_more_report(settled, report, (n - 1) as nat);
    }
}

/// A fan-out waits for its legs: five seconds for all of them, and then, where
/// it goes on, half a minute in all. It stops waiting when every leg has
/// reported or the half minute is over, and not before.
pub proof fn law_waits_follow_the_deadlines(run: FanOutView, elapsed: nat)
    ensures
        run.waits(elapsed) is Finish <==> run.settled.len() >= 2 * run.queries.len() || elapsed
            >= 30_000_000_000,
        run.waits(elapsed) matches WaitView::LegOrSoft(span) ==> {
            &&& !run.soft_fired
            &&& elapsed <= 5_000_000_000 ==> elapsed + span == 5_000_000_000
            &&& elapsed > 5_000_000_000 ==> span == 0
        },
        run.waits(elapsed) matches WaitView::LegOrHard(span) ==> run.soft_fired && elapsed + span
            == 30_000_000_000,
{
}

/// Hits are taken leg by leg: those of a leg follow those of all legs before
/// it, in their own order.
pub proof fn law_hits_stand_in_leg_order(settled: Seq<SettledView>, queries: nat, k: int)
    requires
        one_report_each(settled, queries),
        0 <= k < settled.len(),
    ensures
        ({
            let leg = settled[k].leg;
            let slot: nat = (2 * leg.query_index + if leg.provider == SearchProvider::Startpage {
                0int
            } else {
                1int
            }) as nat;
            match settled[k].outcome {
                Ok(hits) => collected_hits(settled, slot + 1) == collected_hits(settled, slot)
                    + hits,
                Err(_) => collected_hits(settled, slot + 1) == collected_hits(settled, slot),
            }
        }),
        collected_hits(settled, 0).len() == 0,
{
    lemma_report_of(settled, k, queries);
}

/// The result says how much was asked and found.
pub proof fn law_results_say_how_much_there_was(
    queries: Seq<Seq<char>>,
    top_k: nat,
    settled: Seq<SettledView>,
)
    ensures
        fan_out_result(queries, top_k, settled) matches Ok(out) ==> {
            &&& out.queries == queries.len()
            &&& out.legs == 2 * queries.len()
            &&& out.raw_hits == collected_hits(settled, 2 * queries.len()).len()
            &&& out.merged >= out.results.len()
        },
{
}

/// A failure is told with what is known of it.
pub proof fn law_failures_are_told_in_detail(e: Failure)
    ensures
        match e {
            Failure::TooManyQueries { got, max } => has_text(failure_detail(e), decimal(got))
                && decimal(max).is_suffix_of(failure_detail(e)),
            Failure::Challenge { detail, .. } => failure_detail(e) == detail,
            Failure::Timeout { query, .. } => query.is_suffix_of(failure_detail(e)),
            Failure::Upstream { detail, .. } => failure_detail(e) == detail,
            Failure::AllFailed { failures } => failure_detail(e) == failures,
            Failure::EmptyQuery => failure_detail(e) == "empty query"@,
        },
{
    let told = failure_detail(e);
    match e {
        Failure::TooManyQueries { got, max } => {
            crate::text::lemma_has_middle("too many queries: "@, decimal(got), " > "@);
            crate::text::lemma_has_more(
                "too many queries: "@ + decimal(got) + " > "@,
                decimal(max),
                decimal(got),
            );
            assert(told.skip(told.len() - decimal(max).len()) =~= decimal(max));
        },
        Failure::Timeout { query, .. } => {
            assert(told.skip(told.len() - query.len()) =~= query);
        },
        _ => {},
    }
}

} // verus!
