//! The tools that the agent loop may run.
//!
//! Tool names are stable keys. Arguments are held to the schemas below, which
//! also travel with the request. Live calls give canned results; a stub gives
//! results from a queue. The loop sets the time limit of a call, so that both
//! share one.

use std::collections::VecDeque;
use vstd::prelude::*;
use crate::foreign::{quote, ArgKind, ArgValue, ToolArguments};
use crate::json::Json;
use crate::shared::gateway::reply::{RequestedToolCall, ToolDef};
use crate::shared::web_engine_search::ddg::web_url;
use crate::text::{blank, decimal_text, index_in, joined, same_text};
#[allow(unused_imports)]
use crate::foreign::{parsed_json, quoted, ArgView, ArgumentsView, KindView};
#[allow(unused_imports)]
use crate::json::{empty_object, JsonView};
#[allow(unused_imports)]
use crate::shared::gateway::reply::{CallView, ToolDefView};
#[allow(unused_imports)]
use crate::shared::web_engine_search::ddg::is_web_url;
#[allow(unused_imports)]
use crate::text::{decimal, has_text, is_blank, join, lemma_has_middle, lemma_has_more,
    lemma_has_through, lemma_join_has, lemma_views_empty, lemma_views_push, opt_view, views};

verus! {

/// The name of the search tool.
pub const SEARCH_TOOL_NAME: &'static str = "search";

/// What the search tool is for.
pub const SEARCH_TOOL_DESCRIPTION: &'static str = "Search the web for pages matching a query.";

/// The name of the fetch tool.
pub const FETCH_TOOL_NAME: &'static str = "fetch";

/// What the fetch tool is for.
pub const FETCH_TOOL_DESCRIPTION: &'static str = "Fetch a URL and return its content as markdown.";

/// One hit of a search call.
#[derive(Debug, Clone, PartialEq, Eq)]
pub struct SearchHit {
    pub title: String,
    pub url: String,
    pub snippet: String,
}

/// What a hit says.
#[verifier::ext_equal]
pub struct SearchHitView {
    pub title: Seq<char>,
    pub url: Seq<char>,
    pub snippet: Seq<char>,
}

impl View for SearchHit {
    type V = SearchHitView;

    open spec fn view(&self) -> SearchHitView {
        SearchHitView { title: self.title@, url: self.url@, snippet: self.snippet@ }
    }
}

/// The page of a fetch call.
#[derive(Debug, Clone, PartialEq, Eq)]
pub struct FetchedPage {
    pub url: String,
    pub title: String,
    pub markdown: String,
}

/// What a page says.
#[verifier::ext_equal]
pub struct FetchedPageView {
    pub url: Seq<char>,
    pub title: Seq<char>,
    pub markdown: Seq<char>,
}

impl View for FetchedPage {
    type V = FetchedPageView;

    open spec fn view(&self) -> FetchedPageView {
        FetchedPageView { url: self.url@, title: self.title@, markdown: self.markdown@ }
    }
}

/// The result of one tool call.
#[derive(Debug, Clone)]
pub enum ToolResult {
    Search { hits: Vec<SearchHit> },
    Fetch { page: FetchedPage },
    Failed { tool: String, reason: String },
}

/// What a result says.
#[verifier::ext_equal]
pub enum ResultView {
    Search(Seq<SearchHitView>),
    Fetch(FetchedPageView),
    Failed { tool: Seq<char>, reason: Seq<char> },
}

impl View for ToolResult {
    type V = ResultView;

    open spec fn view(&self) -> ResultView {
        match *self {
            ToolResult::Search { hits } => ResultView::Search(views(hits@)),
            ToolResult::Fetch { page } => ResultView::Fetch(page@),
            ToolResult::Failed { tool, reason } => ResultView::Failed {
                tool: tool@,
                reason: reason@,
            },
        }
    }
}

/// How one hit is shown to the model.
pub open spec fn hit_text(h: SearchHitView) -> Seq<char> {
    "- ["@ + h.title + "]("@ + h.url + ")\n  "@ + h.snippet
}

impl ResultView {
    /// How the result is shown to the model.
    pub open spec fn rendered(self) -> Seq<char> {
        match self {
            ResultView::Search(hits) => if hits.len() == 0 {
                "no results"@
            } else {
                join(Seq::new(hits.len(), |i: int| hit_text(hits[i])), "\n"@)
            },
            ResultView::Fetch(page) => "# "@ + page.title + "\n"@ + page.markdown
                + "\n\nSource: "@ + page.url,
            ResultView::Failed { reason, .. } => "FAILED: "@ + reason,
        }
    }

    /// The source that a success comes from.
    pub open spec fn source(self) -> Option<Seq<char>> {
        match self {
            ResultView::Search(hits) => if hits.len() == 0 {
                None
            } else {
                Some(hits[0].url)
            },
            ResultView::Fetch(page) => Some(page.url),
            ResultView::Failed { .. } => None,
        }
    }
}

impl ToolResult {
    /// How the result is shown to the model, in full length.
    pub fn render(&self) -> (r: String)
        ensures
            r@ == self@.rendered(),
    {
        broadcast use {lemma_views_push, lemma_views_empty};

        match self {
            ToolResult::Search { hits } => {
                assert(views(hits@).len() == hits@.len());
                if hits.is_empty() {
                    return "no results".to_owned();
                }
                let ghost lines = Seq::new(hits@.len(), |i: int| hit_text(views(hits@)[i]));
                let mut parts: Vec<String> = Vec::new();
                let mut i: usize = 0;
                while i < hits.len()
                    invariant
                        i <= hits@.len(),
                        lines == Seq::new(hits@.len(), |i: int| hit_text(views(hits@)[i])),
                        views(parts@) == lines.take(i as int),
                    decreases hits@.len() - i,
                {
                    let mut line = "- [".to_owned();
                    line.append(hits[i].title.as_str());
                    line.append("](");
                    line.append(hits[i].url.as_str());
                    line.append(")\n  ");
                    line.append(hits[i].snippet.as_str());
                    let ghost so_far = views(parts@);
                    parts.push(line);
                    assert(views(parts@) == so_far.push(lines[i as int]));
                    i += 1;
                    assert(views(parts@) =~= lines.take(i as int));
                }
                assert(views(parts@) =~= lines);
                joined(parts.as_slice(), "\n")
            },
            ToolResult::Fetch { page } => {
                let mut text = "# ".to_owned();
                text.append(page.title.as_str());
                text.append("\n");
                text.append(page.markdown.as_str());
                text.append("\n\nSource: ");
                text.append(page.url.as_str());
                text
            },
            ToolResult::Failed { reason, .. } => {
                let mut text = "FAILED: ".to_owned();
                text.append(reason.as_str());
                text
            },
        }
    }

    /// The source that a success comes from, if any.
    pub fn url(&self) -> (r: Option<String>)
        ensures
            opt_view(r) == self@.source(),
    {
        match self {
            ToolResult::Search { hits } => {
                if hits.is_empty() {
                    None
                } else {
                    assert(views(hits@)[0] == hits@[0]@);
                    Some(hits[0].url.clone())
                }
            },
            ToolResult::Fetch { page } => Some(page.url.clone()),
            ToolResult::Failed { .. } => None,
        }
    }

    /// Whether the call worked. No hits are information, not a failure.
    pub fn is_success(&self) -> (r: bool)
        ensures
            r == !(self@ is Failed),
    {
        match self {
            ToolResult::Failed { .. } => false,
            _ => true,
        }
    }
}

/// How a value is named in a complaint about arguments.
pub open spec fn kind_name(v: KindView) -> Seq<char> {
    match v {
        KindView::Null => "null"@,
        KindView::Bool(flag) => if flag {
            "true (boolean)"@
        } else {
            "false (boolean)"@
        },
        KindView::Number(text, _) => text + " (number)"@,
        KindView::Text(s) => quoted(s) + " (string)"@,
        KindView::Array => "an array"@,
        KindView::Object => "an object"@,
    }
}

/// How a value is named in a complaint about arguments.
pub fn value_kind(value: &ArgValue) -> (r: String)
    ensures
        r@ == kind_name(value@.kind),
{
    match &value.kind {
        ArgKind::Null => "null".to_owned(),
        ArgKind::Bool(flag) => if *flag {
            "true (boolean)".to_owned()
        } else {
            "false (boolean)".to_owned()
        },
        ArgKind::Number(text, _) => {
            let mut shown = text.clone();
            shown.append(" (number)");
            shown
        },
        ArgKind::Text(s) => {
            let mut shown = quote(s.as_str());
            shown.append(" (string)");
            shown
        },
        ArgKind::Array => "an array".to_owned(),
        ArgKind::Object => "an object".to_owned(),
    }
}

impl ArgumentsView {
    /// The value of an argument.
    pub open spec fn value_of(self, name: Seq<char>) -> Option<ArgView> {
        arg_in(self.fields, name)
    }

    /// The kind of an argument.
    pub open spec fn arg(self, name: Seq<char>) -> Option<KindView> {
        match self.value_of(name) {
            Some(v) => Some(v.kind),
            None => None,
        }
    }
}

/// The value of the first field of this name.
pub open spec fn arg_in(fields: Seq<(Seq<char>, ArgView)>, name: Seq<char>) -> Option<ArgView>
    decreases fields.len(),
{
    if fields.len() == 0 {
        None
    } else if fields[0].0 == name {
        Some(fields[0].1)
    } else {
        arg_in(fields.drop_first(), name)
    }
}

/// The value of an argument.
pub fn argument<'a>(args: &'a ToolArguments, name: &str) -> (r: Option<&'a ArgValue>)
    ensures
        opt_view(r) == args@.value_of(name@),
{
    let ghost all = views(args.fields@);
    let mut i: usize = 0;
    assert(all.skip(0) =~= all);
    while i < args.fields.len()
        invariant
            i <= args.fields@.len(),
            all == views(args.fields@),
            args@.value_of(name@) == arg_in(all.skip(i as int), name@),
        decreases args.fields@.len() - i,
    {
        assert(all.skip(i as int)[0] == args.fields@[i as int]@);
        assert(all.skip(i as int).drop_first() =~= all.skip(i + 1));
        if same_text(args.fields[i].0.as_str(), name) {
            return Some(&args.fields[i].1);
        }
        i += 1;
    }
    None
}

/// The arguments of a search call.
#[derive(Debug, PartialEq, Eq)]
pub struct SearchArgs {
    pub query: String,
    pub top_k: u8,
}

/// The arguments of a fetch call.
#[derive(Debug, PartialEq, Eq)]
pub struct FetchArgs {
    pub url: String,
    pub max_chars: usize,
}

/// A complaint about an argument.
pub open spec fn complaint(rule: Seq<char>, got: Seq<char>) -> Seq<char> {
    rule + "; got "@ + got + "."@
}

fn complain(rule: &str, got: &str) -> (r: String)
    ensures
        r@ == complaint(rule@, got@),
{
    let mut text = rule.to_owned();
    text.append("; got ");
    text.append(got);
    text.append(".");
    text
}

/// What is asked of the arguments as a whole.
pub const OBJECT_RULE: &'static str = "Provide arguments as an object";

/// What is asked of `query`.
pub const QUERY_RULE: &'static str = "Provide query as a non-empty string";

/// What is asked of `top_k`.
pub const TOP_K_RULE: &'static str = "Provide top_k as an integer 1..=10";

/// What is asked of `url`.
pub const URL_RULE: &'static str = "Provide url as an http(s) URL";

/// What is asked of `max_chars`.
pub const MAX_CHARS_RULE: &'static str = "Provide max_chars as a positive integer <= 100000";

/// A whole number from 1 to `max`, a default where it is missing, or a
/// complaint.
pub open spec fn bounded_number(
    value: Option<KindView>,
    default: nat,
    max: nat,
    rule: Seq<char>,
) -> Result<nat, Seq<char>> {
    match value {
        None => Ok(default),
        Some(KindView::Number(text, Some(n))) => if 1 <= n <= max {
            Ok(n as nat)
        } else {
            Err(complaint(rule, decimal(n as nat)))
        },
        Some(KindView::Number(text, None)) => Err(complaint(rule, text + " (non-integer)"@)),
        Some(other) => Err(complaint(rule, kind_name(other))),
    }
}

fn check_number(value: Option<&ArgValue>, default: u64, max: u64, rule: &str) -> (r: Result<
    u64,
    String,
>)
    requires
        default <= max,
    ensures
        ({
            let kind = match value {
                Some(v) => Some(v@.kind),
                None => None,
            };
            match r {
                Ok(n) => bounded_number(kind, default as nat, max as nat, rule@) == Ok::<
                    nat,
                    Seq<char>,
                >(n as nat) && n <= max,
                Err(e) => bounded_number(kind, default as nat, max as nat, rule@) == Err::<
                    nat,
                    Seq<char>,
                >(e@),
            }
        }),
{
    match value {
        None => Ok(default),
        Some(v) => match &v.kind {
            ArgKind::Number(text, number) => match number {
                Some(n) => if 1 <= *n && *n <= max {
                    Ok(*n)
                } else {
                    let shown = decimal_text(*n);
                    Err(complain(rule, shown.as_str()))
                },
                None => {
                    let mut shown = text.clone();
                    shown.append(" (non-integer)");
                    Err(complain(rule, shown.as_str()))
                },
            },
            _ => {
                let shown = value_kind(v);
                Err(complain(rule, shown.as_str()))
            },
        },
    }
}

/// The arguments of a search call, or what is wrong with them.
pub open spec fn search_args(args: ArgumentsView) -> Result<(Seq<char>, nat), Seq<char>> {
    if !(args.value.kind is Object) {
        Err(complaint(OBJECT_RULE@, kind_name(args.value.kind)))
    } else {
        match args.arg("query"@) {
            None => Err(complaint(QUERY_RULE@, "missing"@)),
            Some(KindView::Text(query)) => if is_blank(query) {
                Err(complaint(QUERY_RULE@, "an empty string"@))
            } else {
                match bounded_number(args.arg("top_k"@), 5, 10, TOP_K_RULE@) {
                    Ok(k) => Ok((query, k)),
                    Err(e) => Err(e),
                }
            },
            Some(other) => Err(complaint(QUERY_RULE@, kind_name(other))),
        }
    }
}

/// Holds the arguments of a search call to their schema.
pub fn validate_search(args: &ToolArguments) -> (r: Result<SearchArgs, String>)
    ensures
        match r {
            Ok(a) => search_args(args@) == Ok::<(Seq<char>, nat), Seq<char>>(
                (a.query@, a.top_k as nat),
            ),
            Err(e) => search_args(args@) == Err::<(Seq<char>, nat), Seq<char>>(e@),
        },
{
    match &args.value.kind {
        ArgKind::Object => {},
        _ => {
            let shown = value_kind(&args.value);
            return Err(complain(OBJECT_RULE, shown.as_str()));
        },
    }
    let query = match argument(args, "query") {
        None => {
            return Err(complain(QUERY_RULE, "missing"));
        },
        Some(v) => match &v.kind {
            ArgKind::Text(text) => {
                if blank(text.as_str()) {
                    return Err(complain(QUERY_RULE, "an empty string"));
                }
                text.clone()
            },
            _ => {
                let shown = value_kind(v);
                return Err(complain(QUERY_RULE, shown.as_str()));
            },
        },
    };
    match check_number(argument(args, "top_k"), 5, 10, TOP_K_RULE) {
        Ok(k) => Ok(SearchArgs { query, top_k: k as u8 }),
        Err(e) => Err(e),
    }
}

/// The arguments of a fetch call, or what is wrong with them.
pub open spec fn fetch_args(args: ArgumentsView) -> Result<(Seq<char>, nat), Seq<char>> {
    if !(args.value.kind is Object) {
        Err(complaint(OBJECT_RULE@, kind_name(args.value.kind)))
    } else {
        match args.arg("url"@) {
            None => Err(complaint(URL_RULE@, "missing"@)),
            Some(KindView::Text(url)) => if !is_web_url(url) {
                Err(complaint(URL_RULE@, "a string with another scheme"@))
            } else {
                match bounded_number(args.arg("max_chars"@), 4000, 100_000, MAX_CHARS_RULE@) {
                    Ok(n) => Ok((url, n)),
                    Err(e) => Err(e),
                }
            },
            Some(other) => Err(complaint(URL_RULE@, kind_name(other))),
        }
    }
}

/// Holds the arguments of a fetch call to their schema.
pub fn validate_fetch(args: &ToolArguments) -> (r: Result<FetchArgs, String>)
    ensures
        match r {
            Ok(a) => fetch_args(args@) == Ok::<(Seq<char>, nat), Seq<char>>(
                (a.url@, a.max_chars as nat),
            ),
            Err(e) => fetch_args(args@) == Err::<(Seq<char>, nat), Seq<char>>(e@),
        },
{
    match &args.value.kind {
        ArgKind::Object => {},
        _ => {
            let shown = value_kind(&args.value);
            return Err(complain(OBJECT_RULE, shown.as_str()));
        },
    }
    let url = match argument(args, "url") {
        None => {
            return Err(complain(URL_RULE, "missing"));
        },
        Some(v) => match &v.kind {
            ArgKind::Text(text) => {
                if !web_url(text.as_str()) {
                    return Err(complain(URL_RULE, "a string with another scheme"));
                }
                text.clone()
            },
            _ => {
                let shown = value_kind(v);
                return Err(complain(URL_RULE, shown.as_str()));
            },
        },
    };
    match check_number(argument(args, "max_chars"), 4000, 100_000, MAX_CHARS_RULE) {
        Ok(n) => Ok(FetchArgs { url, max_chars: n as usize }),
        Err(e) => Err(e),
    }
}

/// The schema of an object with one required property.
pub open spec fn object_schema(properties: JsonView, required: Seq<char>) -> JsonView {
    empty_object().with("type"@, JsonView::Text("object"@)).with(
        "properties"@,
        properties,
    ).with("required"@, JsonView::Array(seq![JsonView::Text(required)]))
}

/// The schema of a string property.
pub open spec fn string_schema(description: Seq<char>) -> JsonView {
    empty_object().with("type"@, JsonView::Text("string"@)).with(
        "description"@,
        JsonView::Text(description),
    )
}

/// The schema of a whole number from 1 to `max`.
pub open spec fn integer_schema(max: nat, default: nat, description: Seq<char>) -> JsonView {
    empty_object().with("type"@, JsonView::Text("integer"@)).with(
        "minimum"@,
        JsonView::Number(1),
    ).with("maximum"@, JsonView::Number(max)).with("default"@, JsonView::Number(default)).with(
        "description"@,
        JsonView::Text(description),
    )
}

/// The search tool as it is offered.
pub open spec fn search_def() -> ToolDefView {
    ToolDefView {
        name: SEARCH_TOOL_NAME@,
        description: SEARCH_TOOL_DESCRIPTION@,
        parameters: object_schema(
            empty_object().with(
                "query"@,
                string_schema("Web-search query; must be non-empty."@),
            ).with("top_k"@, integer_schema(10, 5, "How many hits to return (1-10)."@)),
            "query"@,
        ),
    }
}

/// The fetch tool as it is offered.
pub open spec fn fetch_def() -> ToolDefView {
    ToolDefView {
        name: FETCH_TOOL_NAME@,
        description: FETCH_TOOL_DESCRIPTION@,
        parameters: object_schema(
            empty_object().with("url"@, string_schema("http(s) URL to fetch."@)).with(
                "max_chars"@,
                integer_schema(100_000, 4000, "Maximum characters to return (1-100000)."@),
            ),
            "url"@,
        ),
    }
}

fn schema_of_object(properties: Json, required: &str) -> (r: Json)
    ensures
        r@ == object_schema(properties@, required@),
{
    broadcast use {lemma_views_push, lemma_views_empty};

    let mut names: Vec<Json> = Vec::new();
    names.push(Json::text(required));
    assert(views(names@) =~= seq![JsonView::Text(required@)]);
    Json::object().with("type", Json::text("object")).with("properties", properties).with(
        "required",
        Json::array(names),
    )
}

fn schema_of_string(description: &str) -> (r: Json)
    ensures
        r@ == string_schema(description@),
{
    Json::object().with("type", Json::text("string")).with("description", Json::text(description))
}

fn schema_of_integer(max: u64, default: u64, description: &str) -> (r: Json)
    ensures
        r@ == integer_schema(max as nat, default as nat, description@),
{
    Json::object().with("type", Json::text("integer")).with("minimum", Json::Number(1)).with(
        "maximum",
        Json::Number(max),
    ).with("default", Json::Number(default)).with("description", Json::text(description))
}

fn stub_search_def() -> (r: ToolDef)
    ensures
        r@ == search_def(),
{
    let properties = Json::object().with(
        "query",
        schema_of_string("Web-search query; must be non-empty."),
    ).with("top_k", schema_of_integer(10, 5, "How many hits to return (1-10)."));
    ToolDef {
        name: SEARCH_TOOL_NAME.to_owned(),
        description: SEARCH_TOOL_DESCRIPTION.to_owned(),
        parameters: schema_of_object(properties, "query"),
    }
}

fn stub_fetch_def() -> (r: ToolDef)
    ensures
        r@ == fetch_def(),
{
    let properties = Json::object().with("url", schema_of_string("http(s) URL to fetch.")).with(
        "max_chars",
        schema_of_integer(100_000, 4000, "Maximum characters to return (1-100000)."),
    );
    ToolDef {
        name: FETCH_TOOL_NAME.to_owned(),
        description: FETCH_TOOL_DESCRIPTION.to_owned(),
        parameters: schema_of_object(properties, "url"),
    }
}

/// Where the results of a registry come from.
#[derive(Debug)]
pub enum RegistryMode {
    /// Canned results for valid arguments.
    Live,
    /// The results in the queue, one for each call.
    Stub { queue: VecDeque<ToolResult> },
}

/// The dispatch table of the tools that a run may offer.
#[derive(Debug)]
pub struct ToolRegistry {
    pub mode: RegistryMode,
}

/// What a registry holds: the queue of a stub.
impl View for ToolRegistry {
    type V = Option<Seq<ResultView>>;

    open spec fn view(&self) -> Option<Seq<ResultView>> {
        match self.mode {
            RegistryMode::Live => None,
            RegistryMode::Stub { queue } => Some(views(queue@)),
        }
    }
}

/// The names of the tools, in wire order.
pub open spec fn known_tools() -> Seq<Seq<char>> {
    seq![SEARCH_TOOL_NAME@, FETCH_TOOL_NAME@]
}

/// The tools with their purposes, in wire order.
pub open spec fn known_purposes() -> Seq<(Seq<char>, Seq<char>)> {
    seq![
        (SEARCH_TOOL_NAME@, SEARCH_TOOL_DESCRIPTION@),
        (FETCH_TOOL_NAME@, FETCH_TOOL_DESCRIPTION@),
    ]
}

/// The definitions of the allowed tools, in wire order.
pub open spec fn allowed_defs(allowed: Seq<Seq<char>>) -> Seq<ToolDefView> {
    let first = if allowed.contains(SEARCH_TOOL_NAME@) {
        seq![search_def()]
    } else {
        Seq::empty()
    };
    if allowed.contains(FETCH_TOOL_NAME@) {
        first.push(fetch_def())
    } else {
        first
    }
}

/// Which tools are offered, and in what order, depends on which are allowed
/// alone, not on the order in which they are named.
pub proof fn law_tools_are_offered_in_one_order(a: Seq<Seq<char>>, b: Seq<Seq<char>>)
    requires
        forall|name: Seq<char>| a.contains(name) <==> b.contains(name),
    ensures
        allowed_defs(a) == allowed_defs(b),
{
}

/// The canned result of a search.
pub open spec fn canned_search() -> ResultView {
    ResultView::Search(
        seq![
            SearchHitView {
                title: "Obscura engine overview"@,
                url: "https://example.com/obscura"@,
                snippet: "Stub search hit; the real engine lands in #13."@,
            },
        ],
    )
}

/// The canned result of a fetch.
pub open spec fn canned_fetch() -> ResultView {
    ResultView::Fetch(
        FetchedPageView {
            url: "https://example.com/obscura"@,
            title: "Obscura engine overview"@,
            markdown: "Stub fetch body; the real Obscura integration lands in #14."@,
        },
    )
}

/// The failure of a call.
pub open spec fn failed(call: CallView, reason: Seq<char>) -> ResultView {
    ResultView::Failed { tool: call.name, reason }
}

/// The result of a live call, given what its arguments are read as. An
/// unknown name, bad JSON and bad arguments are failures in that order.
pub open spec fn live_result(
    call: CallView,
    parsed: Result<ArgumentsView, Seq<char>>,
) -> ResultView {
    if call.name != SEARCH_TOOL_NAME@ && call.name != FETCH_TOOL_NAME@ {
        failed(call, "unknown tool '"@ + call.name + "'"@)
    } else {
        match parsed {
            Err(e) => failed(call, "arguments are not valid JSON: "@ + e),
            Ok(args) => if call.name == SEARCH_TOOL_NAME@ {
                match search_args(args) {
                    Ok(_) => canned_search(),
                    Err(reason) => failed(call, "invalid args for 'search': "@ + reason),
                }
            } else {
                match fetch_args(args) {
                    Ok(_) => canned_fetch(),
                    Err(reason) => failed(call, "invalid args for 'fetch': "@ + reason),
                }
            },
        }
    }
}

fn failure(call: &RequestedToolCall, head: &str, detail: &str, tail: &str) -> (r: ToolResult)
    ensures
        r@ == failed(call@, head@ + detail@ + tail@),
{
    let mut reason = head.to_owned();
    reason.append(detail);
    reason.append(tail);
    ToolResult::Failed { tool: call.name.clone(), reason }
}

fn stub_execute_search(_args: &SearchArgs) -> (r: ToolResult)
    ensures
        r@ == canned_search(),
{
    let mut hits: Vec<SearchHit> = Vec::new();
    hits.push(
        SearchHit {
            title: "Obscura engine overview".to_owned(),
            url: "https://example.com/obscura".to_owned(),
            snippet: "Stub search hit; the real engine lands in #13.".to_owned(),
        },
    );
    assert(views(hits@) =~= canned_search()->Search_0);
    ToolResult::Search { hits }
}

fn stub_execute_fetch(_args: &FetchArgs) -> (r: ToolResult)
    ensures
        r@ == canned_fetch(),
{
    ToolResult::Fetch {
        page: FetchedPage {
            url: "https://example.com/obscura".to_owned(),
            title: "Obscura engine overview".to_owned(),
            markdown: "Stub fetch body; the real Obscura integration lands in #14.".to_owned(),
        },
    }
}

/// Runs a live call whose arguments have been read.
pub fn dispatch_live(call: &RequestedToolCall, parsed: Result<ToolArguments, String>) -> (r:
    ToolResult)
    ensures
        r@ == live_result(
            call@,
            match parsed {
                Ok(args) => Ok(args@),
                Err(e) => Err(e@),
            },
        ),
{
    let is_search = same_text(call.name.as_str(), SEARCH_TOOL_NAME);
    let is_fetch = same_text(call.name.as_str(), FETCH_TOOL_NAME);
    if !is_search && !is_fetch {
        return failure(call, "unknown tool '", call.name.as_str(), "'");
    }
    let args = match parsed {
        Ok(args) => args,
        Err(e) => {
            let r = failure(call, "arguments are not valid JSON: ", e.as_str(), "");
            proof {
                reveal_strlit("");
                assert("arguments are not valid JSON: "@ + e@ + ""@ =~= "arguments are not valid JSON: "@ + e@);
            }
            return r;
        },
    };
    if is_search {
        match validate_search(&args) {
            Ok(valid) => stub_execute_search(&valid),
            Err(reason) => {
                let r = failure(call, "invalid args for 'search': ", reason.as_str(), "");
                proof {
                    reveal_strlit("");
                    assert("invalid args for 'search': "@ + reason@ + ""@ =~= "invalid args for 'search': "@ + reason@);
                }
                r
            },
        }
    } else {
        match validate_fetch(&args) {
            Ok(valid) => stub_execute_fetch(&valid),
            Err(reason) => {
                let r = failure(call, "invalid args for 'fetch': ", reason.as_str(), "");
                proof {
                    reveal_strlit("");
                    assert("invalid args for 'fetch': "@ + reason@ + ""@ =~= "invalid args for 'fetch': "@ + reason@);
                }
                r
            },
        }
    }
}

impl ToolRegistry {
    /// A registry that holds arguments to their schemas and gives canned
    /// results.
    pub fn live() -> (r: ToolRegistry)
        ensures
            r@ is None,
    {
        ToolRegistry { mode: RegistryMode::Live }
    }

    /// A registry that gives results from a queue, in wire order.
    pub fn stub(results: VecDeque<ToolResult>) -> (r: ToolRegistry)
        ensures
            r@ == Some(views(results@)),
    {
        ToolRegistry { mode: RegistryMode::Stub { queue: results } }
    }

    /// The names of the tools, in wire order.
    pub fn tool_names(&self) -> (r: Vec<&'static str>)
        ensures
            views(r@) == known_tools(),
    {
        let r = vec![SEARCH_TOOL_NAME, FETCH_TOOL_NAME];
        assert(views(r@) =~= known_tools());
        r
    }

    /// The tools with their purposes, as the system prompt lists them.
    pub fn tool_purposes(&self) -> (r: Vec<(&'static str, &'static str)>)
        ensures
            views(r@) == known_purposes(),
    {
        let r = vec![
            (SEARCH_TOOL_NAME, SEARCH_TOOL_DESCRIPTION),
            (FETCH_TOOL_NAME, FETCH_TOOL_DESCRIPTION),
        ];
        assert(views(r@) =~= known_purposes());
        r
    }

    /// The definitions of the allowed tools, in wire order. Unknown names are
    /// passed over: the loop refuses them before it starts.
    pub fn tool_defs(&self, allowed: &[String]) -> (r: Vec<ToolDef>)
        ensures
            views(r@) == allowed_defs(views(allowed@)),
    {
        broadcast use {lemma_views_push, lemma_views_empty};

        proof {
            crate::text::lemma_first_index(views(allowed@), SEARCH_TOOL_NAME@);
            crate::text::lemma_first_index(views(allowed@), FETCH_TOOL_NAME@);
        }
        let mut defs: Vec<ToolDef> = Vec::new();
        if index_in(allowed, SEARCH_TOOL_NAME) < allowed.len() {
            defs.push(stub_search_def());
            assert(views(defs@) =~= seq![search_def()]);
        }
        if index_in(allowed, FETCH_TOOL_NAME) < allowed.len() {
            defs.push(stub_fetch_def());
        }
        defs
    }

    /// Runs one call. Nothing here panics: unknown names, bad JSON and bad
    /// arguments become failed results. A stub gives the next result of its
    /// queue, whatever the call, and a failure once it is empty.
    pub fn execute(&mut self, call: &RequestedToolCall) -> (r: ToolResult)
        ensures
            match old(self)@ {
                None => r@ == live_result(call@, parsed_json(call@.arguments)) && final(self)@
                    is None,
                Some(queue) => if queue.len() > 0 {
                    r@ == queue[0] && final(self)@ == Some(queue.skip(1))
                } else {
                    r@ == failed(call@, "stub queue exhausted"@) && final(self)@ == Some(queue)
                },
            },
    {
        match &mut self.mode {
            RegistryMode::Stub { queue } => {
                let ghost before = queue@;
                match queue.pop_front() {
                    Some(next) => {
                        proof {
                            assert(views(before)[0] == before[0]@);
                            assert(views(queue@) =~= views(before).skip(1));
                        }
                        return next;
                    },
                    None => {
                        return ToolResult::Failed {
                            tool: call.name.clone(),
                            reason: "stub queue exhausted".to_owned(),
                        };
                    },
                }
            },
            RegistryMode::Live => {},
        }
        dispatch_live(call, call.parsed_arguments())
    }
}

/// What a tool gave is shown whole: of each hit its title, its URL and its
/// snippet, of a page its title, its content and its URL, and of a failure the
/// reason. The source is the first hit or the page.
pub proof fn law_results_are_shown_whole(result: ResultView)
    ensures
        result matches ResultView::Search(hits) ==> {
            &&& forall|i: int|
                0 <= i < hits.len() ==> has_text(result.rendered(), (#[trigger] hits[i]).title)
                    && has_text(result.rendered(), hits[i].url) && has_text(
                    result.rendered(),
                    hits[i].snippet,
                )
            &&& hits.len() > 0 ==> result.source() == Some(hits[0].url)
            &&& hits.len() == 0 ==> result.source() is None
        },
        result matches ResultView::Fetch(page) ==> has_text(result.rendered(), page.title)
            && has_text(result.rendered(), page.markdown) && has_text(result.rendered(), page.url)
            && result.source() == Some(page.url),
        result matches ResultView::Failed { reason, .. } ==> has_text(result.rendered(), reason)
            && result.source() is None,
{
    let shown = result.rendered();
    match result {
        ResultView::Search(hits) => {
            let parts = Seq::new(hits.len(), |i: int| hit_text(hits[i]));
            assert forall|i: int| 0 <= i < hits.len() implies has_text(
                shown,
                (#[trigger] hits[i]).title,
            ) && has_text(shown, hits[i].url) && has_text(shown, hits[i].snippet) by {
                lemma_join_has(parts, "\n"@, i);
                lemma_hit_text(hits[i]);
                lemma_has_through(shown, hit_text(hits[i]), hits[i].title);
                lemma_has_through(shown, hit_text(hits[i]), hits[i].url);
                lemma_has_through(shown, hit_text(hits[i]), hits[i].snippet);
            }
        },
        ResultView::Fetch(page) => {
            let a = "# "@ + page.title;
            let b = a + "\n"@;
            let c = b + page.markdown;
            let d = c + "\n\nSource: "@;
            lemma_has_middle("# "@, page.title, Seq::empty());
            lemma_has_more(a, "\n"@, page.title);
            lemma_has_more(b, page.markdown, page.title);
            lemma_has_more(c, "\n\nSource: "@, page.title);
            lemma_has_more(d, page.url, page.title);
            lemma_has_middle(b, page.markdown, Seq::empty());
            lemma_has_more(c, "\n\nSource: "@, page.markdown);
            lemma_has_more(d, page.url, page.markdown);
            lemma_has_middle(d, page.url, Seq::empty());
        },
        ResultView::Failed { reason, .. } => {
            lemma_has_middle("FAILED: "@, reason, Seq::empty());
        },
    }
}

proof fn lemma_hit_text(h: SearchHitView)
    ensures
        has_text(hit_text(h), h.title),
        has_text(hit_text(h), h.url),
        has_text(hit_text(h), h.snippet),
{
    let a = "- ["@ + h.title;
    let b = a + "]("@;
    let c = b + h.url;
    let d = c + ")\n  "@;
    lemma_has_middle("- ["@, h.title, Seq::empty());
    lemma_has_more(a, "]("@, h.title);
    lemma_has_more(b, h.url, h.title);
    lemma_has_more(c, ")\n  "@, h.title);
    lemma_has_more(d, h.snippet, h.title);
    lemma_has_middle(b, h.url, Seq::empty());
    lemma_has_more(c, ")\n  "@, h.url);
    lemma_has_more(d, h.snippet, h.url);
    lemma_has_middle(d, h.snippet, Seq::empty());
}

/// An argument is found under its name, the first of that name.
pub proof fn law_arguments_are_found_by_name(fields: Seq<(Seq<char>, ArgView)>, i: int)
    requires
        0 <= i < fields.len(),
        forall|j: int| 0 <= j < i ==> (#[trigger] fields[j]).0 != fields[i].0,
    ensures
        arg_in(fields, fields[i].0) == Some(fields[i].1),
        forall|name: Seq<char>|
            #![trigger arg_in(fields, name)]
            arg_in(fields, name) is None <==> forall|j: int|
                0 <= j < fields.len() ==> (#[trigger] fields[j]).0 != name,
    decreases fields.len(),
{
    let rest = fields.drop_first();
    if i > 0 {
        assert(fields[0].0 != fields[i].0);
        assert(rest[i - 1] == fields[i]);
        assert forall|j: int| 0 <= j < i - 1 implies (#[trigger] rest[j]).0 != rest[i - 1].0 by {
            assert(rest[j] == fields[j + 1]);
        }
        law_arguments_are_found_by_name(rest, i - 1);
    }
    assert forall|name: Seq<char>| #![trigger arg_in(fields, name)] arg_in(fields, name) is None
        <==> forall|j: int| 0 <= j < fields.len() ==> (#[trigger] fields[j]).0 != name by {
        lemma_arg_missing(fields, name);
    }
}

proof fn lemma_arg_missing(fields: Seq<(Seq<char>, ArgView)>, name: Seq<char>)
    ensures
        arg_in(fields, name) is None <==> forall|j: int|
            0 <= j < fields.len() ==> (#[trigger] fields[j]).0 != name,
    decreases fields.len(),
{
    if fields.len() > 0 {
        let rest = fields.drop_first();
        lemma_arg_missing(rest, name);
        if fields[0].0 != name {
            if arg_in(fields, name) is None {
                assert forall|j: int| 0 <= j < fields.len() implies (#[trigger] fields[j]).0
                    != name by {
                    if j > 0 {
                        assert(rest[j - 1] == fields[j]);
                    }
                }
            } else {
                let j = choose|j: int| 0 <= j < rest.len() && (#[trigger] rest[j]).0 == name;
                assert(fields[j + 1] == rest[j]);
            }
        }
    }
}

/// The arguments of a search are taken exactly where they are an object with a
/// query that is not blank and, if any, a whole number of hits from one to
/// ten; without one it is five. The query is taken as it is.
pub proof fn law_searches_are_taken_as_advertised(args: ArgumentsView)
    ensures
        ({
            let k = args.arg("top_k"@);
            let fits = k is None || (k matches Some(KindView::Number(_, Some(n))) && 1 <= n <= 10);
            &&& search_args(args) is Ok <==> args.value.kind is Object && (args.arg(
                "query"@,
            ) matches Some(KindView::Text(q)) && !is_blank(q)) && fits
            &&& search_args(args) matches Ok((query, top_k)) ==> {
                &&& args.arg("query"@) == Some(KindView::Text(query))
                &&& k is None ==> top_k == 5
                &&& k matches Some(KindView::Number(_, Some(n))) ==> top_k == n
            }
        }),
        search_def().parameters.field("required"@) == Some(
            JsonView::Array(seq![JsonView::Text("query"@)]),
        ),
        search_def().parameters.field("properties"@) matches Some(p) && (p.field(
            "top_k"@,
        ) matches Some(t) && t.field("minimum"@) == Some(JsonView::Number(1)) && t.field(
            "maximum"@,
        ) == Some(JsonView::Number(10)) && t.field("default"@) == Some(JsonView::Number(5))),
{
    lemma_schema_names();
    reveal_strlit("query");
    reveal_strlit("top_k");
    assert("query"@[0] == 'q' && "top_k"@[0] == 't');
    reveal_with_fuel(crate::json::first_field, 6);
}

/// The arguments of a fetch are taken exactly where they are an object with an
/// http(s) URL and, if any, a whole number of characters from one to a hundred
/// thousand; without one it is four thousand. The URL is taken as it is.
pub proof fn law_fetches_are_taken_as_advertised(args: ArgumentsView)
    ensures
        ({
            let k = args.arg("max_chars"@);
            let fits = k is None || (k matches Some(KindView::Number(_, Some(n))) && 1 <= n
                <= 100_000);
            &&& fetch_args(args) is Ok <==> args.value.kind is Object && (args.arg(
                "url"@,
            ) matches Some(KindView::Text(u)) && ("http://"@.is_prefix_of(u)
                || "https://"@.is_prefix_of(u))) && fits
            &&& fetch_args(args) matches Ok((url, max_chars)) ==> {
                &&& args.arg("url"@) == Some(KindView::Text(url))
                &&& k is None ==> max_chars == 4000
                &&& k matches Some(KindView::Number(_, Some(n))) ==> max_chars == n
            }
        }),
        fetch_def().parameters.field("required"@) == Some(
            JsonView::Array(seq![JsonView::Text("url"@)]),
        ),
        fetch_def().parameters.field("properties"@) matches Some(p) && (p.field(
            "max_chars"@,
        ) matches Some(t) && t.field("minimum"@) == Some(JsonView::Number(1)) && t.field(
            "maximum"@,
        ) == Some(JsonView::Number(100_000)) && t.field("default"@) == Some(
            JsonView::Number(4000),
        )),
{
    lemma_schema_names();
    reveal_strlit("url");
    reveal_strlit("max_chars");
    assert("url"@[0] == 'u' && "max_chars"@[0] == 'm');
    reveal_with_fuel(crate::json::first_field, 6);
}

proof fn lemma_schema_names()
    ensures
        "type"@.len() == 4 && "properties"@.len() == 10 && "required"@.len() == 8,
        "minimum"@.len() == 7 && "maximum"@.len() == 7 && "minimum"@[1] == 'i' && "maximum"@[1]
            == 'a',
        "default"@.len() == 7 && "default"@[0] == 'd' && "minimum"@[0] == 'm' && "maximum"@[0]
            == 'm',
{
    reveal_strlit("type");
    reveal_strlit("properties");
    reveal_strlit("required");
    reveal_strlit("minimum");
    reveal_strlit("maximum");
    reveal_strlit("default");
}

/// A call is run exactly where its tool is known and its arguments are taken,
/// and then by that tool; every other call fails in the name of its tool.
pub proof fn law_calls_reach_their_tool(
    call: CallView,
    parsed: Result<ArgumentsView, Seq<char>>,
)
    ensures
        live_result(call, parsed) is Search <==> call.name == "search"@ && (parsed matches Ok(args)
            && search_args(args) is Ok),
        live_result(call, parsed) is Fetch <==> call.name == "fetch"@ && (parsed matches Ok(args)
            && fetch_args(args) is Ok),
        live_result(call, parsed) matches ResultView::Failed { tool, reason } ==> tool == call.name
            && (call.name != "search"@ && call.name != "fetch"@ ==> has_text(reason, call.name)) && (
        (call.name == "search"@ || call.name == "fetch"@) && parsed is Err ==> has_text(
            reason,
            parsed->Err_0,
        )) && (call.name == "search"@ && (parsed matches Ok(args) && search_args(args) is Err)
            ==> has_text(reason, search_args(parsed->Ok_0)->Err_0)) && (call.name == "fetch"@ && (
        parsed matches Ok(args) && fetch_args(args) is Err) ==> has_text(
            reason,
            fetch_args(parsed->Ok_0)->Err_0,
        )),
{
    reveal_strlit("search");
    reveal_strlit("fetch");
    assert("search"@[0] == 's' && "fetch"@[0] == 'f');
    lemma_has_middle("unknown tool '"@, call.name, "'"@);
    if let Err(e) = parsed {
        lemma_has_middle("arguments are not valid JSON: "@, e, Seq::empty());
    }
    if let Ok(args) = parsed {
        if let Err(e) = search_args(args) {
            lemma_has_middle("invalid args for 'search': "@, e, Seq::empty());
        }
        if let Err(e) = fetch_args(args) {
            lemma_has_middle("invalid args for 'fetch': "@, e, Seq::empty());
        }
    }
}

/// The tools that are offered are those that are allowed, each once, the
/// search before the fetch.
pub proof fn law_offered_tools_are_the_allowed_ones(allowed: Seq<Seq<char>>)
    ensures
        ({
            let defs = allowed_defs(allowed);
            &&& (exists|i: int| 0 <= i < defs.len() && (#[trigger] defs[i]).name == "search"@)
                <==> allowed.contains("search"@)
            &&& (exists|i: int| 0 <= i < defs.len() && (#[trigger] defs[i]).name == "fetch"@)
                <==> allowed.contains("fetch"@)
            &&& defs.len() <= 2
            &&& defs.len() == 2 ==> defs[0].name == "search"@ && defs[1].name == "fetch"@
            &&& forall|i: int|
                0 <= i < defs.len() ==> allowed.contains((#[trigger] defs[i]).name)
        }),
{
    let defs = allowed_defs(allowed);
    reveal_strlit("search");
    reveal_strlit("fetch");
    assert("search"@[0] == 's' && "fetch"@[0] == 'f');
    if allowed.contains("search"@) {
        assert(defs[0].name == "search"@);
    }
    if allowed.contains("fetch"@) {
        assert(defs.last() == defs[defs.len() - 1]);
        assert(defs[defs.len() - 1].name == "fetch"@);
    }
}

/// Hits are shown in their order: one more hit is shown behind the others,
/// as a link with its title and, to the end, its snippet.
pub proof fn law_hits_are_shown_in_order(hits: Seq<SearchHitView>, h: SearchHitView)
    ensures
        ({
            let before = ResultView::Search(hits).rendered();
            let after = ResultView::Search(hits.push(h)).rendered();
            &&& hits.len() > 0 ==> before.is_prefix_of(after)
            &&& h.snippet.is_suffix_of(after)
            &&& has_text(after, "["@ + h.title + "]("@ + h.url + ")"@)
            &&& hits.len() == 0 ==> before == "no results"@
        }),
{
    let all = hits.push(h);
    let lines = Seq::new(all.len(), |i: int| hit_text(all[i]));
    let fewer = Seq::new(hits.len(), |i: int| hit_text(hits[i]));
    let after = ResultView::Search(all).rendered();
    assert(lines.drop_last() =~= fewer);
    assert(lines.last() == hit_text(h));
    lemma_hit_is_a_link(h);
    let line = hit_text(h);
    if hits.len() > 0 {
        let before = join(fewer, "\n"@);
        assert(after == before + "\n"@ + line);
        assert(after.subrange(0, before.len() as int) =~= before);
        lemma_has_middle(before + "\n"@, line, Seq::empty());
    } else {
        reveal_with_fuel(join, 2);
        assert(after =~= line);
        lemma_has_middle(Seq::empty(), line, Seq::empty());
        assert(Seq::<char>::empty() + line + Seq::<char>::empty() =~= line);
    }
    assert(after.skip(after.len() - h.snippet.len()) =~= h.snippet) by {
        assert(line.skip(line.len() - h.snippet.len()) =~= h.snippet);
        assert(after.skip(after.len() - line.len()) =~= line);
        assert(after.skip(after.len() - h.snippet.len()) =~= line.skip(
            line.len() - h.snippet.len(),
        ));
    }
    lemma_has_through(after, line, "["@ + h.title + "]("@ + h.url + ")"@);
}

proof fn lemma_hit_is_a_link(h: SearchHitView)
    ensures
        has_text(hit_text(h), "["@ + h.title + "]("@ + h.url + ")"@),
{
    reveal_strlit("- [");
    reveal_strlit("- ");
    reveal_strlit("[");
    reveal_strlit(")\n  ");
    reveal_strlit(")");
    reveal_strlit("\n  ");
    let link = "["@ + h.title + "]("@ + h.url + ")"@;
    assert(hit_text(h) =~= "- "@ + link + ("\n  "@ + h.snippet));
    lemma_has_middle("- "@, link, "\n  "@ + h.snippet);
}

/// A refusal says what is asked for and what was given in its place.
pub proof fn law_refusals_tell_what_was_given(args: ArgumentsView)
    ensures
        search_args(args) matches Err(e) ==> {
            &&& !(args.value.kind is Object) ==> OBJECT_RULE@.is_prefix_of(e) && has_text(
                e,
                kind_name(args.value.kind),
            )
            &&& args.value.kind is Object && args.arg("query"@) is None ==> QUERY_RULE@.is_prefix_of(
                e,
            ) && has_text(e, "missing"@)
            &&& args.value.kind is Object ==> (args.arg("query"@) matches Some(v) ==> (!(v is Text)
                ==> QUERY_RULE@.is_prefix_of(e) && has_text(e, kind_name(v))))
            &&& args.value.kind is Object && (args.arg("query"@) matches Some(KindView::Text(q))
                && !is_blank(q)) ==> TOP_K_RULE@.is_prefix_of(e) && (args.arg(
                "top_k"@,
            ) matches Some(KindView::Number(_, Some(n))) ==> has_text(e, decimal(n as nat)))
        },
        fetch_args(args) matches Err(e) ==> {
            &&& !(args.value.kind is Object) ==> OBJECT_RULE@.is_prefix_of(e) && has_text(
                e,
                kind_name(args.value.kind),
            )
            &&& args.value.kind is Object && args.arg("url"@) is None ==> URL_RULE@.is_prefix_of(e)
                && has_text(e, "missing"@)
            &&& args.value.kind is Object ==> (args.arg("url"@) matches Some(v) ==> (!(v is Text)
                ==> URL_RULE@.is_prefix_of(e) && has_text(e, kind_name(v))))
            &&& args.value.kind is Object && (args.arg("url"@) matches Some(KindView::Text(u))
                && is_web_url(u)) ==> MAX_CHARS_RULE@.is_prefix_of(e) && (args.arg(
                "max_chars"@,
            ) matches Some(KindView::Number(_, Some(n))) ==> has_text(e, decimal(n as nat)))
        },
{
    lemma_complaint(OBJECT_RULE@, kind_name(args.value.kind));
    lemma_complaint(QUERY_RULE@, "missing"@);
    lemma_complaint(URL_RULE@, "missing"@);
    if let Some(v) = args.arg("query"@) {
        lemma_complaint(QUERY_RULE@, kind_name(v));
    }
    if let Some(v) = args.arg("url"@) {
        lemma_complaint(URL_RULE@, kind_name(v));
    }
    lemma_bounded_complaint(args.arg("top_k"@), 5, 10, TOP_K_RULE@);
    lemma_bounded_complaint(args.arg("max_chars"@), 4000, 100_000, MAX_CHARS_RULE@);
}

proof fn lemma_complaint(rule: Seq<char>, got: Seq<char>)
    ensures
        rule.is_prefix_of(complaint(rule, got)),
        has_text(complaint(rule, got), got),
{
    let all = complaint(rule, got);
    assert(all.take(rule.len() as int) =~= rule);
    lemma_has_middle(rule + "; got "@, got, "."@);
}

proof fn lemma_bounded_complaint(
    value: Option<KindView>,
    default: nat,
    max: nat,
    rule: Seq<char>,
)
    ensures
        bounded_number(value, default, max, rule) matches Err(e) ==> rule.is_prefix_of(e) && (
        value matches Some(KindView::Number(_, Some(n))) ==> has_text(e, decimal(n as nat))),
{
    if let Some(v) = value {
        match v {
            KindView::Number(text, Some(n)) => {
                lemma_complaint(rule, decimal(n as nat));
            },
            KindView::Number(text, None) => {
                lemma_complaint(rule, text + " (non-integer)"@);
            },
            _ => {
                lemma_complaint(rule, kind_name(v));
            },
        }
    }
}

/// A value is named by its kind, a number and a text with what they are.
pub proof fn law_kinds_are_named(text: Seq<char>)
    ensures
        has_text(kind_name(KindView::Text(text)), quoted(text)),
        has_text(kind_name(KindView::Text(text)), "string"@),
        kind_name(KindView::Null) == "null"@,
        kind_name(KindView::Array) == "an array"@,
        kind_name(KindView::Object) == "an object"@,
        kind_name(KindView::Bool(true)) == "true (boolean)"@,
        kind_name(KindView::Bool(false)) == "false (boolean)"@,
{
    lemma_has_middle(Seq::empty(), quoted(text), " (string)"@);
    lemma_has_middle(quoted(text), " (string)"@, Seq::empty());
    lemma_string_word();
    lemma_has_through(quoted(text) + " (string)"@, " (string)"@, "string"@);
}

proof fn lemma_string_word()
    ensures
        has_text(" (string)"@, "string"@),
{
    reveal_strlit(" (string)");
    reveal_strlit("string");
    assert(" (string)"@.subrange(2, 8) =~= "string"@);
    assert(crate::text::occurs_at(" (string)"@, "string"@, 2));
}

/// The two tools are described to the model as they are: by name and purpose,
/// with a text that must be given and a whole number that may be.
pub proof fn law_tools_are_described(name: Seq<char>)
    ensures
        search_def().name == "search"@,
        search_def().description == SEARCH_TOOL_DESCRIPTION@,
        search_def().parameters.field("type"@) == Some(JsonView::Text("object"@)),
        search_def().parameters.field("properties"@) matches Some(p) && {
            &&& p.field(name) is Some <==> name == "query"@ || name == "top_k"@
            &&& p.field("query"@) matches Some(q) && q.field("type"@) == Some(
                JsonView::Text("string"@),
            )
            &&& p.field("top_k"@) matches Some(k) && k.field("type"@) == Some(
                JsonView::Text("integer"@),
            )
        },
        fetch_def().name == "fetch"@,
        fetch_def().description == FETCH_TOOL_DESCRIPTION@,
        fetch_def().parameters.field("type"@) == Some(JsonView::Text("object"@)),
        fetch_def().parameters.field("properties"@) matches Some(p) && {
            &&& p.field(name) is Some <==> name == "url"@ || name == "max_chars"@
            &&& p.field("url"@) matches Some(u) && u.field("type"@) == Some(
                JsonView::Text("string"@),
            )
            &&& p.field("max_chars"@) matches Some(k) && k.field("type"@) == Some(
                JsonView::Text("integer"@),
            )
        },
{
    lemma_schema_names();
    reveal_strlit("query");
    reveal_strlit("top_k");
    reveal_strlit("url");
    reveal_strlit("max_chars");
    reveal_strlit("description");
    assert("query"@[0] == 'q' && "top_k"@[0] == 't' && "url"@.len() == 3 && "max_chars"@.len() == 9);
    assert("description"@.len() == 11);
    reveal_with_fuel(crate::json::first_field, 6);
}

} // verus!
