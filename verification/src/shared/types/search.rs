//! Search types: providers, recency, hits, merged results, fan-out input and
//! output.
//!
//! The `search` tool fans the agent's queries out over DuckDuckGo and
//! Startpage, folds hits of one URL into one result and ranks results by
//! consensus. Provider text inside a hit is an ungrounded candidate: only the
//! content of a fetched page, with its URL and time, becomes evidence.

use vstd::prelude::*;
use crate::text::{copied, same_text, trimmed};
#[allow(unused_imports)]
use crate::text::{lemma_views_empty, lemma_views_push, opt_view, trim, views};

verus! {

/// Default number of results of one engine.
pub const DEFAULT_NUM_RESULTS: usize = 10;

/// Largest number of results of one engine.
pub const MAX_NUM_RESULTS: usize = 20;

/// Default number of merged results of one fan-out.
pub const DEFAULT_TOP_K: usize = 15;

/// Largest number of merged results of one fan-out.
pub const MAX_TOP_K: usize = 30;

/// Largest number of queries of one fan-out; the agent plans again instead of
/// widening.
pub const MAX_QUERIES: usize = 8;

/// Largest number of characters of one query.
pub const MAX_QUERY_LEN: usize = 500;

/// Transport ceiling of one leg, in seconds.
pub const LEG_TIMEOUT_SECS: u64 = 60;

/// Soft deadline of a fan-out, in seconds: merge early with one success.
pub const SOFT_DEADLINE_SECS: u64 = 5;

/// Hard deadline of a fan-out, in seconds.
pub const HARD_DEADLINE_SECS: u64 = 30;

/// The DuckDuckGo locale.
pub const DDG_KL_DEFAULT: &'static str = "us-en";

/// One search provider.
#[derive(Debug, Clone, Copy, PartialEq, Eq, Hash, Structural)]
pub enum SearchProvider {
    DuckDuckGo,
    Startpage,
}

/// The place of a provider in the merge order: lower comes first.
pub open spec fn provider_priority(p: SearchProvider) -> nat {
    match p {
        SearchProvider::Startpage => 0,
        SearchProvider::DuckDuckGo => 1,
    }
}

/// The stable name of a provider.
pub open spec fn provider_id(p: SearchProvider) -> Seq<char> {
    match p {
        SearchProvider::DuckDuckGo => "duckduckgo"@,
        SearchProvider::Startpage => "startpage"@,
    }
}

impl SearchProvider {
    /// Neither provider needs credentials, so both are always available.
    pub fn is_available(self) -> (r: bool)
        ensures
            r,
    {
        true
    }

    /// The place in the merge order: lower comes first.
    pub fn priority(self) -> (r: usize)
        ensures
            r == provider_priority(self),
    {
        match self {
            SearchProvider::Startpage => 0,
            SearchProvider::DuckDuckGo => 1,
        }
    }

    /// The stable lowercase name, used in logs and failure messages.
    pub fn id(self) -> (r: &'static str)
        ensures
            r@ == provider_id(self),
    {
        match self {
            SearchProvider::DuckDuckGo => "duckduckgo",
            SearchProvider::Startpage => "startpage",
        }
    }
}

/// How far back results may reach.
#[derive(Debug, Clone, Copy, PartialEq, Eq, Hash, Structural)]
pub enum Recency {
    Day,
    Week,
    Month,
    Year,
}

/// The form value of a recency window, the same for both providers.
pub open spec fn recency_param(r: Recency) -> Seq<char> {
    match r {
        Recency::Day => "d"@,
        Recency::Week => "w"@,
        Recency::Month => "m"@,
        Recency::Year => "y"@,
    }
}

/// The name of a recency window.
pub open spec fn recency_name(r: Recency) -> Seq<char> {
    match r {
        Recency::Day => "day"@,
        Recency::Week => "week"@,
        Recency::Month => "month"@,
        Recency::Year => "year"@,
    }
}

impl Recency {
    /// The window with this name.
    pub fn from_name(name: &str) -> (r: Option<Recency>)
        ensures
            match r {
                Some(window) => name@ == recency_name(window),
                None => forall|window: Recency| name@ != recency_name(window),
            },
    {
        if same_text(name, "day") {
            Some(Recency::Day)
        } else if same_text(name, "week") {
            Some(Recency::Week)
        } else if same_text(name, "month") {
            Some(Recency::Month)
        } else if same_text(name, "year") {
            Some(Recency::Year)
        } else {
            None
        }
    }

    /// The form value of this window, the same for both providers.
    pub fn param(self) -> (r: &'static str)
        ensures
            r@ == recency_param(self),
    {
        match self {
            Recency::Day => "d",
            Recency::Week => "w",
            Recency::Month => "m",
            Recency::Year => "y",
        }
    }
}

/// One raw provider hit. Not evidence.
#[derive(Debug, PartialEq)]
pub struct SearchResult {
    /// Link text, trimmed, entities decoded, not empty.
    pub title: String,
    /// Absolute http(s) URL as the provider gave it.
    pub url: String,
    /// Description by the provider; may be empty; never evidence.
    pub snippet: String,
    pub provider: SearchProvider,
    /// The exact query that produced this hit.
    pub query: String,
    /// Position inside the response of its leg, from 0.
    pub rank: usize,
    /// Raw date text, where the provider gives one.
    pub published_date: Option<String>,
}

/// What a raw hit says.
#[verifier::ext_equal]
pub struct Hit {
    pub title: Seq<char>,
    pub url: Seq<char>,
    pub snippet: Seq<char>,
    pub provider: SearchProvider,
    pub query: Seq<char>,
    pub rank: nat,
    pub published_date: Option<Seq<char>>,
}

impl View for SearchResult {
    type V = Hit;

    open spec fn view(&self) -> Hit {
        Hit {
            title: self.title@,
            url: self.url@,
            snippet: self.snippet@,
            provider: self.provider,
            query: self.query@,
            rank: self.rank as nat,
            published_date: opt_view(self.published_date),
        }
    }
}

impl Clone for SearchResult {
    fn clone(&self) -> (r: Self)
        ensures
            r@ == self@,
    {
        SearchResult {
            title: self.title.clone(),
            url: self.url.clone(),
            snippet: self.snippet.clone(),
            provider: self.provider,
            query: self.query.clone(),
            rank: self.rank,
            published_date: copied(&self.published_date),
        }
    }
}

/// One result after the merge; this is what gets fetched.
#[derive(Debug, Clone, PartialEq)]
pub struct MergedResult {
    /// Title of the best-ranked hit of the group.
    pub title: String,
    /// The key of the group.
    pub canonical_url: String,
    /// URL of the best-ranked hit of the group, as the provider gave it.
    pub display_url: String,
    /// The longest snippet of the group; may be empty.
    pub snippet: String,
    /// The providers of the group, in merge order, each once.
    pub providers: Vec<SearchProvider>,
    /// The queries that surfaced this group, sorted, each once.
    pub queries: Vec<String>,
    /// The lowest rank in the group.
    pub best_rank: usize,
    /// How many hits were folded into the group.
    pub hit_count: usize,
    /// The first date that a hit of the group gave.
    pub published_date: Option<String>,
}

/// What a merged result says.
#[verifier::ext_equal]
pub struct Merged {
    pub title: Seq<char>,
    pub canonical_url: Seq<char>,
    pub display_url: Seq<char>,
    pub snippet: Seq<char>,
    pub providers: Seq<SearchProvider>,
    pub queries: Seq<Seq<char>>,
    pub best_rank: nat,
    pub hit_count: nat,
    pub published_date: Option<Seq<char>>,
}

impl View for MergedResult {
    type V = Merged;

    open spec fn view(&self) -> Merged {
        Merged {
            title: self.title@,
            canonical_url: self.canonical_url@,
            display_url: self.display_url@,
            snippet: self.snippet@,
            providers: self.providers@,
            queries: views(self.queries@),
            best_rank: self.best_rank as nat,
            hit_count: self.hit_count as nat,
            published_date: opt_view(self.published_date),
        }
    }
}

/// Validated input of one fan-out.
#[derive(Debug, Clone, PartialEq)]
pub struct SearchInput {
    /// 1 to `MAX_QUERIES` trimmed queries of 1 to `MAX_QUERY_LEN` characters.
    pub queries: Vec<String>,
    /// How many merged results to return, 1 to `MAX_TOP_K`.
    pub top_k: usize,
    /// The recency window; `None` sends none.
    pub recency: Option<Recency>,
}

/// What a fan-out input says.
#[verifier::ext_equal]
pub struct InputView {
    pub queries: Seq<Seq<char>>,
    pub top_k: nat,
    pub recency: Option<Recency>,
}

impl View for SearchInput {
    type V = InputView;

    open spec fn view(&self) -> InputView {
        InputView {
            queries: views(self.queries@),
            top_k: self.top_k as nat,
            recency: self.recency,
        }
    }
}

impl InputView {
    /// What validation promises of a fan-out input.
    pub open spec fn valid(self) -> bool {
        &&& 1 <= self.queries.len() <= MAX_QUERIES
        &&& 1 <= self.top_k <= MAX_TOP_K
        &&& forall|i: int|
            0 <= i < self.queries.len() ==> {
                &&& 1 <= (#[trigger] self.queries[i]).len() <= MAX_QUERY_LEN
                &&& trim(self.queries[i]) == self.queries[i]
            }
    }
}

/// The queries that are left after trimming and dropping the empty ones.
pub open spec fn kept_queries(raw: Seq<Seq<char>>) -> Seq<Seq<char>>
    decreases raw.len(),
{
    if raw.len() == 0 {
        Seq::empty()
    } else {
        let before = kept_queries(raw.drop_last());
        let q = trim(raw.last());
        if q.len() == 0 {
            before
        } else {
            before.push(q)
        }
    }
}

/// The length of the first query that is too long.
pub open spec fn first_too_long(queries: Seq<Seq<char>>) -> Option<nat>
    decreases queries.len(),
{
    if queries.len() == 0 {
        None
    } else if first_too_long(queries.drop_last()) is Some {
        first_too_long(queries.drop_last())
    } else if queries.last().len() > MAX_QUERY_LEN {
        Some(queries.last().len())
    } else {
        None
    }
}

/// How many merged results a caller gets for what they asked.
pub open spec fn effective_top_k(top_k: Option<usize>) -> nat {
    match top_k {
        None => DEFAULT_TOP_K as nat,
        Some(k) => if k < 1 {
            1
        } else if k > MAX_TOP_K {
            MAX_TOP_K as nat
        } else {
            k as nat
        },
    }
}

/// The outcome of validating a raw fan-out input.
pub open spec fn validated(
    raw: Seq<Seq<char>>,
    top_k: Option<usize>,
    recency: Option<Recency>,
) -> Result<InputView, Failure> {
    let kept = kept_queries(raw);
    if kept.len() == 0 {
        Err(Failure::EmptyQuery)
    } else if kept.len() > MAX_QUERIES {
        Err(Failure::TooManyQueries { got: kept.len(), max: MAX_QUERIES as nat })
    } else {
        match first_too_long(kept) {
            Some(n) => Err(Failure::TooManyQueries { got: n, max: MAX_QUERY_LEN as nat }),
            None => Ok(InputView { queries: kept, top_k: effective_top_k(top_k), recency }),
        }
    }
}

impl SearchInput {
    /// Validates raw caller input: trims, drops the empty queries, holds the
    /// rest to their number and length, and fills in `top_k`.
    pub fn validate(
        queries: Vec<String>,
        top_k: Option<usize>,
        recency: Option<Recency>,
    ) -> (r: Result<SearchInput, SearchProviderError>)
        ensures
            match r {
                Ok(input) => validated(views(queries@), top_k, recency) == Ok::<InputView, Failure>(
                    input@,
                ),
                Err(e) => validated(views(queries@), top_k, recency) == Err::<InputView, Failure>(
                    e@,
                ),
            },
            match r {
                Ok(input) => input@.valid(),
                Err(_) => true,
            },
    {
        broadcast use {lemma_views_push, lemma_views_empty};

        let ghost raw = views(queries@);
        let mut kept: Vec<String> = Vec::new();
        let mut i: usize = 0;
        while i < queries.len()
            invariant
                i <= queries@.len(),
                raw == views(queries@),
                views(kept@) == kept_queries(raw.take(i as int)),
            decreases queries@.len() - i,
        {
            let q = trimmed(queries[i].as_str());
            assert(raw.take(i + 1).drop_last() =~= raw.take(i as int));
            assert(raw.take(i + 1).last() == queries@[i as int]@);
            if !q.as_str().is_empty() {
                kept.push(q);
            }
            i += 1;
        }
        assert(raw.take(i as int) =~= raw);
        assert(views(kept@).len() == kept@.len());
        if kept.is_empty() {
            return Err(SearchProviderError::EmptyQuery);
        }
        if kept.len() > MAX_QUERIES {
            return Err(SearchProviderError::TooManyQueries { got: kept.len(), max: MAX_QUERIES });
        }
        let ghost ks = views(kept@);
        let mut j: usize = 0;
        while j < kept.len()
            invariant
                j <= kept@.len(),
                ks == views(kept@),
                ks == kept_queries(raw),
                0 < ks.len() <= MAX_QUERIES,
                raw == views(queries@),
                first_too_long(ks.take(j as int)) is None,
            decreases kept@.len() - j,
        {
            let n: usize = kept[j].as_str().unicode_len();
            assert(ks.take(j + 1).drop_last() =~= ks.take(j as int));
            assert(ks.take(j + 1).last() == kept@[j as int]@);
            if n > MAX_QUERY_LEN {
                proof {
                    lemma_first_too_long_prefix(ks, j + 1);
                }
                return Err(SearchProviderError::TooManyQueries { got: n, max: MAX_QUERY_LEN });
            }
            j += 1;
        }
        assert(ks.take(j as int) =~= ks);
        let top_k: usize = match top_k {
            None => DEFAULT_TOP_K,
            Some(k) => if k < 1 {
                1
            } else if k > MAX_TOP_K {
                MAX_TOP_K
            } else {
                k
            },
        };
        proof {
            lemma_kept_queries(raw);
            lemma_none_too_long(ks);
        }
        Ok(SearchInput { queries: kept, top_k, recency })
    }
}

proof fn lemma_first_too_long_prefix(queries: Seq<Seq<char>>, n: int)
    requires
        0 <= n <= queries.len(),
        first_too_long(queries.take(n)) is Some,
    ensures
        first_too_long(queries) == first_too_long(queries.take(n)),
    decreases queries.len(),
{
    if n == queries.len() {
        assert(queries.take(n) =~= queries);
    } else {
        assert(queries.drop_last().take(n) =~= queries.take(n));
        lemma_first_too_long_prefix(queries.drop_last(), n);
    }
}

proof fn lemma_none_too_long(queries: Seq<Seq<char>>)
    requires
        first_too_long(queries) is None,
    ensures
        forall|i: int| 0 <= i < queries.len() ==> (#[trigger] queries[i]).len() <= MAX_QUERY_LEN,
    decreases queries.len(),
{
    if queries.len() > 0 {
        let front = queries.drop_last();
        lemma_none_too_long(front);
        assert forall|i: int| 0 <= i < queries.len() implies (#[trigger] queries[i]).len()
            <= MAX_QUERY_LEN by {
            if i < queries.len() - 1 {
                assert(front[i] == queries[i]);
            }
        }
    }
}

/// Every kept query is trimmed and not empty.
pub proof fn lemma_kept_queries(raw: Seq<Seq<char>>)
    ensures
        forall|i: int|
            0 <= i < kept_queries(raw).len() ==> {
                &&& (#[trigger] kept_queries(raw)[i]).len() > 0
                &&& trim(kept_queries(raw)[i]) == kept_queries(raw)[i]
            },
    decreases raw.len(),
{
    if raw.len() > 0 {
        let front = kept_queries(raw.drop_last());
        lemma_kept_queries(raw.drop_last());
        crate::text::lemma_trim_idempotent(raw.last());
        assert forall|i: int| 0 <= i < kept_queries(raw).len() implies {
            &&& (#[trigger] kept_queries(raw)[i]).len() > 0
            &&& trim(kept_queries(raw)[i]) == kept_queries(raw)[i]
        } by {
            if i < front.len() {
                assert(kept_queries(raw)[i] == front[i]);
            }
        }
    }
}

/// Output of one fan-out. Partial success is the norm.
#[derive(Debug, Clone, PartialEq)]
pub struct SearchOutput {
    /// Merged results by consensus rank, at most `top_k`.
    pub results: Vec<MergedResult>,
    /// One entry for each failed leg, in leg order.
    pub errors: Vec<SearchProviderError>,
    pub stats: SearchStats,
}

#[derive(Debug, Clone, PartialEq)]
pub struct SearchStats {
    /// The number of queries.
    pub queries: usize,
    /// The number of legs: two for each query.
    pub legs: usize,
    /// Hits before the merge.
    pub raw_hits: usize,
    /// Groups before the cut to `top_k`.
    pub merged: usize,
}

/// Failure of one leg, or of a whole call.
#[derive(Debug, PartialEq)]
pub enum SearchProviderError {
    /// No usable query: 400.
    EmptyQuery,
    /// Too many queries, or one that is too long: 400.
    TooManyQueries { got: usize, max: usize },
    /// Bot wall: 429.
    Challenge { provider: SearchProvider, detail: String },
    /// Leg deadline: 504.
    Timeout { provider: SearchProvider, query: String },
    /// Network error, or a status outside 2xx without challenge markers: 503.
    Upstream { provider: SearchProvider, detail: String },
    /// Every leg failed and nothing merged: 503.
    AllFailed { failures: String },
}

/// What a search failure says.
#[verifier::ext_equal]
pub enum Failure {
    EmptyQuery,
    TooManyQueries { got: nat, max: nat },
    Challenge { provider: SearchProvider, detail: Seq<char> },
    Timeout { provider: SearchProvider, query: Seq<char> },
    Upstream { provider: SearchProvider, detail: Seq<char> },
    AllFailed { failures: Seq<char> },
}

impl View for SearchProviderError {
    type V = Failure;

    open spec fn view(&self) -> Failure {
        match *self {
            SearchProviderError::EmptyQuery => Failure::EmptyQuery,
            SearchProviderError::TooManyQueries { got, max } => Failure::TooManyQueries {
                got: got as nat,
                max: max as nat,
            },
            SearchProviderError::Challenge { provider, detail } => Failure::Challenge {
                provider,
                detail: detail@,
            },
            SearchProviderError::Timeout { provider, query } => Failure::Timeout {
                provider,
                query: query@,
            },
            SearchProviderError::Upstream { provider, detail } => Failure::Upstream {
                provider,
                detail: detail@,
            },
            SearchProviderError::AllFailed { failures } => Failure::AllFailed {
                failures: failures@,
            },
        }
    }
}

impl Clone for SearchProviderError {
    fn clone(&self) -> (r: Self)
        ensures
            r@ == self@,
    {
        match self {
            SearchProviderError::EmptyQuery => SearchProviderError::EmptyQuery,
            SearchProviderError::TooManyQueries { got, max } => SearchProviderError::TooManyQueries {
                got: *got,
                max: *max,
            },
            SearchProviderError::Challenge { provider, detail } => SearchProviderError::Challenge {
                provider: *provider,
                detail: detail.clone(),
            },
            SearchProviderError::Timeout { provider, query } => SearchProviderError::Timeout {
                provider: *provider,
                query: query.clone(),
            },
            SearchProviderError::Upstream { provider, detail } => SearchProviderError::Upstream {
                provider: *provider,
                detail: detail.clone(),
            },
            SearchProviderError::AllFailed { failures } => SearchProviderError::AllFailed {
                failures: failures.clone(),
            },
        }
    }
}

impl Failure {
    /// The HTTP status of a failure.
    pub open spec fn status(self) -> u16 {
        match self {
            Failure::EmptyQuery => 400,
            Failure::TooManyQueries { .. } => 400,
            Failure::Challenge { .. } => 429,
            Failure::Timeout { .. } => 504,
            Failure::Upstream { .. } => 503,
            Failure::AllFailed { .. } => 503,
        }
    }

    /// The machine name of a failure.
    pub open spec fn machine_code(self) -> Seq<char> {
        match self {
            Failure::EmptyQuery => "empty_query"@,
            Failure::TooManyQueries { .. } => "too_many_queries"@,
            Failure::Challenge { .. } => "challenge"@,
            Failure::Timeout { .. } => "timeout"@,
            Failure::Upstream { .. } => "upstream"@,
            Failure::AllFailed { .. } => "all_failed"@,
        }
    }

    /// The provider that a failure belongs to.
    pub open spec fn owner(self) -> Option<SearchProvider> {
        match self {
            Failure::EmptyQuery => None,
            Failure::TooManyQueries { .. } => None,
            Failure::Challenge { provider, .. } => Some(provider),
            Failure::Timeout { provider, .. } => Some(provider),
            Failure::Upstream { provider, .. } => Some(provider),
            Failure::AllFailed { .. } => None,
        }
    }
}

impl SearchProviderError {
    /// The HTTP status of this failure.
    pub fn http_status(&self) -> (r: u16)
        ensures
            r == self@.status(),
    {
        match self {
            SearchProviderError::EmptyQuery => 400,
            SearchProviderError::TooManyQueries { .. } => 400,
            SearchProviderError::Challenge { .. } => 429,
            SearchProviderError::Timeout { .. } => 504,
            SearchProviderError::Upstream { .. } => 503,
            SearchProviderError::AllFailed { .. } => 503,
        }
    }

    /// The machine name of this failure.
    pub fn code(&self) -> (r: &'static str)
        ensures
            r@ == self@.machine_code(),
    {
        match self {
            SearchProviderError::EmptyQuery => "empty_query",
            SearchProviderError::TooManyQueries { .. } => "too_many_queries",
            SearchProviderError::Challenge { .. } => "challenge",
            SearchProviderError::Timeout { .. } => "timeout",
            SearchProviderError::Upstream { .. } => "upstream",
            SearchProviderError::AllFailed { .. } => "all_failed",
        }
    }

    /// The provider that this failure belongs to, if it belongs to one leg.
    pub fn provider(&self) -> (r: Option<SearchProvider>)
        ensures
            r == self@.owner(),
    {
        match self {
            SearchProviderError::EmptyQuery => None,
            SearchProviderError::TooManyQueries { .. } => None,
            SearchProviderError::Challenge { provider, .. } => Some(*provider),
            SearchProviderError::Timeout { provider, .. } => Some(*provider),
            SearchProviderError::Upstream { provider, .. } => Some(*provider),
            SearchProviderError::AllFailed { .. } => None,
        }
    }
}

/// The queries that are asked are the raw ones without the white space around
/// them, in their order, the blank ones left out.
pub proof fn law_queries_are_asked_as_written(raw: Seq<Seq<char>>, q: Seq<char>)
    ensures
        kept_queries(Seq::empty()).len() == 0,
        crate::text::is_blank(q) ==> kept_queries(raw.push(q)) == kept_queries(raw),
        !crate::text::is_blank(q) ==> kept_queries(raw.push(q)) == kept_queries(raw).push(trim(q)),
{
    assert(raw.push(q).drop_last() =~= raw);
    let cut = crate::text::lemma_trim(q);
}

proof fn lemma_first_too_long(queries: Seq<Seq<char>>)
    ensures
        first_too_long(queries) is None <==> forall|i: int|
            0 <= i < queries.len() ==> (#[trigger] queries[i]).len() <= 500,
        first_too_long(queries) matches Some(n) ==> exists|i: int|
            #![trigger queries[i]]
            0 <= i < queries.len() && queries[i].len() == n && n > 500 && forall|j: int|
                0 <= j < i ==> (#[trigger] queries[j]).len() <= 500,
    decreases queries.len(),
{
    if queries.len() > 0 {
        let front = queries.drop_last();
        let last = queries.len() - 1;
        lemma_first_too_long(front);
        assert(queries[last] == queries.last());
        if first_too_long(front) is None {
            assert forall|i: int| 0 <= i < last implies (#[trigger] queries[i]).len() <= 500 by {
                assert(front[i] == queries[i]);
            }
        } else {
            let n = first_too_long(front)->0;
            let i = choose|i: int|
                #![trigger front[i]]
                0 <= i < front.len() && front[i].len() == n && n > 500 && forall|j: int|
                    0 <= j < i ==> (#[trigger] front[j]).len() <= 500;
            assert(queries[i] == front[i]);
            assert forall|j: int| 0 <= j < i implies (#[trigger] queries[j]).len() <= 500 by {
                assert(front[j] == queries[j]);
            }
        }
    }
}

/// A search is taken exactly where one to eight of its queries are not blank
/// and none of these is longer than five hundred characters. It then asks for
/// fifteen results, or for as many as it is told, one to thirty; what it is
/// refused for says how many there were and how many there may be.
pub proof fn law_searches_are_taken_within_their_limits(
    raw: Seq<Seq<char>>,
    top_k: Option<usize>,
    recency: Option<Recency>,
)
    ensures
        ({
            let kept = kept_queries(raw);
            let short = forall|i: int| 0 <= i < kept.len() ==> (#[trigger] kept[i]).len() <= 500;
            &&& validated(raw, top_k, recency) is Ok <==> 1 <= kept.len() <= 8 && short
            &&& kept.len() == 0 ==> validated(raw, top_k, recency) == Err::<InputView, Failure>(
                Failure::EmptyQuery,
            )
            &&& kept.len() > 8 ==> validated(raw, top_k, recency) == Err::<InputView, Failure>(
                Failure::TooManyQueries { got: kept.len(), max: 8 },
            )
            &&& 1 <= kept.len() <= 8 && !short ==> (validated(raw, top_k, recency) matches Err(
                Failure::TooManyQueries { got, max },
            ) && max == 500 && exists|i: int|
                #![trigger kept[i]]
                0 <= i < kept.len() && kept[i].len() == got && got > 500)
            &&& validated(raw, top_k, recency) matches Ok(input) ==> {
                &&& input.queries == kept
                &&& input.recency == recency
                &&& 1 <= input.top_k <= 30
                &&& top_k is None ==> input.top_k == 15
                &&& top_k matches Some(k) ==> {
                    &&& 1 <= k <= 30 ==> input.top_k == k
                    &&& k == 0 ==> input.top_k == 1
                    &&& k > 30 ==> input.top_k == 30
                }
            }
        }),
{
    lemma_first_too_long(kept_queries(raw));
}

/// Failures that are the caller's fault have a status of the caller's; those of
/// the providers have one of the server's, a wall its own and a timeout its
/// own. No two kinds share a code, and a failure of a provider names it.
pub proof fn law_failures_are_told_apart(a: Failure, b: Failure)
    ensures
        a.status() == 400 <==> a is EmptyQuery || a is TooManyQueries,
        a.status() == 429 <==> a is Challenge,
        a.status() == 504 <==> a is Timeout,
        a.status() == 503 <==> a is Upstream || a is AllFailed,
        a.machine_code() == b.machine_code() <==> ((a is EmptyQuery && b is EmptyQuery) || (
        a is TooManyQueries && b is TooManyQueries) || (a is Challenge && b is Challenge) || (
        a is Timeout && b is Timeout) || (a is Upstream && b is Upstream) || (a is AllFailed
            && b is AllFailed)),
        a matches Failure::Challenge { provider, .. } ==> a.owner() == Some(provider),
        a matches Failure::Timeout { provider, .. } ==> a.owner() == Some(provider),
        a matches Failure::Upstream { provider, .. } ==> a.owner() == Some(provider),
{
    reveal_strlit("empty_query");
    reveal_strlit("too_many_queries");
    reveal_strlit("challenge");
    reveal_strlit("timeout");
    reveal_strlit("upstream");
    reveal_strlit("all_failed");
    assert("empty_query"@.len() == 11 && "too_many_queries"@.len() == 16);
    assert("challenge"@.len() == 9 && "timeout"@.len() == 7 && "upstream"@.len() == 8);
    assert("all_failed"@.len() == 10);
}

/// The freshness windows are sent by the first letter of their names, and the
/// providers go by their own names, Startpage first.
pub proof fn law_windows_and_providers_have_their_names(r: Recency)
    ensures
        recency_param(r).len() == 1,
        recency_param(r)[0] == recency_name(r)[0],
        provider_priority(SearchProvider::Startpage) == 0,
        provider_priority(SearchProvider::DuckDuckGo) == 1,
        provider_id(SearchProvider::Startpage) == "startpage"@,
        provider_id(SearchProvider::DuckDuckGo) == "duckduckgo"@,
{
    reveal_strlit("d");
    reveal_strlit("w");
    reveal_strlit("m");
    reveal_strlit("y");
    reveal_strlit("day");
    reveal_strlit("week");
    reveal_strlit("month");
    reveal_strlit("year");
}

/// Failures, windows and the like are named by stable words, which callers
/// compare with.
pub proof fn law_failures_have_their_codes(e: Failure, r: Recency)
    ensures
        e is EmptyQuery ==> e.machine_code() == "empty_query"@ && e.owner() is None,
        e is TooManyQueries ==> e.machine_code() == "too_many_queries"@ && e.owner() is None,
        e is Challenge ==> e.machine_code() == "challenge"@ && e.owner() is Some,
        e is Timeout ==> e.machine_code() == "timeout"@ && e.owner() is Some,
        e is Upstream ==> e.machine_code() == "upstream"@ && e.owner() is Some,
        e is AllFailed ==> e.machine_code() == "all_failed"@ && e.owner() is None,
        r is Day ==> recency_name(r) == "day"@ && recency_param(r) == "d"@,
        r is Week ==> recency_name(r) == "week"@ && recency_param(r) == "w"@,
        r is Month ==> recency_name(r) == "month"@ && recency_param(r) == "m"@,
        r is Year ==> recency_name(r) == "year"@ && recency_param(r) == "y"@,
{
}

/// Of the queries that are too long, the first is the one that is told.
pub proof fn law_the_first_long_query_is_told(
    raw: Seq<Seq<char>>,
    top_k: Option<usize>,
    recency: Option<Recency>,
    k: int,
)
    requires
        0 <= k < kept_queries(raw).len() <= 8,
        kept_queries(raw)[k].len() > 500,
        forall|i: int| 0 <= i < k ==> (#[trigger] kept_queries(raw)[i]).len() <= 500,
    ensures
        validated(raw, top_k, recency) == Err::<InputView, Failure>(
            Failure::TooManyQueries { got: kept_queries(raw)[k].len(), max: 500 },
        ),
{
    lemma_first_too_long_is(kept_queries(raw), k);
}

proof fn lemma_first_too_long_is(queries: Seq<Seq<char>>, k: int)
    requires
        0 <= k < queries.len(),
        queries[k].len() > 500,
        forall|i: int| 0 <= i < k ==> (#[trigger] queries[i]).len() <= 500,
    ensures
        first_too_long(queries) == Some(queries[k].len()),
    decreases queries.len(),
{
    let front = queries.drop_last();
    if k < front.len() {
        lemma_first_too_long_is(front, k);
    } else {
        lemma_first_too_long(front);
        if first_too_long(front) is Some {
            assert(forall|i: int| 0 <= i < front.len() ==> #[trigger] front[i] == queries[i]);
        }
    }
}

} // verus!
