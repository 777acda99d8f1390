//! The fetch tool: a URL becomes evidence.

use vstd::prelude::*;
use crate::foreign::{ArgKind, ToolArguments};
use crate::json::Json;
use crate::shared::agent_loop::registry::argument;
use crate::shared::obscura::browser::{normalize_url, CommandRun, FetchError, Obscura};
use crate::shared::session::Evidence;
#[allow(unused_imports)]
use crate::foreign::{ArgumentsView, KindView};
#[allow(unused_imports)]
use crate::json::{empty_object, texts_view, JsonView};
#[allow(unused_imports)]
use crate::shared::obscura::browser::{normalized, run_outcome, FetchFailure, MarkdownView};
#[allow(unused_imports)]
use crate::shared::session::timestamp;
#[allow(unused_imports)]
use crate::text::views;

verus! {

/// The name under which the tool is offered.
pub const FETCH_TOOL_NAME: &'static str = "fetch";

/// What the tool is for.
pub const FETCH_PURPOSE: &'static str = "Fetch a URL via the Obscura engine and return its content as markdown Evidence for synthesis.";

/// The input of the tool.
#[derive(Debug, Clone, PartialEq, Eq)]
pub struct FetchInput {
    pub url: String,
}

/// The URL of an input, or the value that stands in its place: the input
/// itself where it is no object, nothing where it has no `url`.
pub open spec fn url_of(input: ArgumentsView) -> Result<Seq<char>, Seq<char>> {
    if input.value.kind != KindView::Object {
        Err(input.value.compact)
    } else {
        match input.value_of("url"@) {
            None => Err(Seq::empty()),
            Some(v) => match v.kind {
                KindView::Text(url) => Ok(url),
                _ => Err(v.compact),
            },
        }
    }
}

impl FetchInput {
    /// Reads the shape of an input: an object with a string `url`. Whether
    /// the URL is valid is not looked at, and other fields are ignored.
    pub fn parse(value: &ToolArguments) -> (r: Result<FetchInput, FetchError>)
        ensures
            match r {
                Ok(input) => url_of(value@) == Ok::<Seq<char>, Seq<char>>(input.url@),
                Err(e) => url_of(value@) is Err && e@ == (FetchFailure::InvalidUrl {
                    input: url_of(value@)->Err_0,
                }),
            },
    {
        match &value.value.kind {
            ArgKind::Object => {},
            _ => {
                return Err(FetchError::InvalidUrl { input: value.value.compact.clone() });
            },
        }
        match argument(value, "url") {
            Some(v) => match &v.kind {
                ArgKind::Text(url) => Ok(FetchInput { url: url.clone() }),
                _ => Err(FetchError::InvalidUrl { input: v.compact.clone() }),
            },
            None => Err(FetchError::InvalidUrl { input: String::new() }),
        }
    }
}

/// The definition of the tool.
pub open spec fn fetch_schema() -> JsonView {
    empty_object().with("name"@, JsonView::Text(FETCH_TOOL_NAME@)).with(
        "description"@,
        JsonView::Text(FETCH_PURPOSE@),
    ).with(
        "parameters"@,
        empty_object().with("type"@, JsonView::Text("object"@)).with(
            "properties"@,
            empty_object().with(
                "url"@,
                empty_object().with("type"@, JsonView::Text("string"@)).with(
                    "format"@,
                    JsonView::Text("uri"@),
                ).with(
                    "description"@,
                    JsonView::Text("Absolute http(s) URL to fetch markdown from."@),
                ),
            ),
        ).with("required"@, texts_view(seq!["url"@])).with(
            "additionalProperties"@,
            JsonView::Bool(false),
        ),
    )
}

/// The definition of the tool, as the agent loop offers it.
pub fn fetch_tool_schema() -> (r: Json)
    ensures
        r@ == fetch_schema(),
{
    let required = vec!["url".to_owned()];
    assert(views(required@) =~= seq!["url"@]);
    let url = Json::object().with("type", Json::text("string")).with("format", Json::text("uri")).with(
        "description",
        Json::text("Absolute http(s) URL to fetch markdown from."),
    );
    let parameters = Json::object().with("type", Json::text("object")).with(
        "properties",
        Json::object().with("url", url),
    ).with("required", Json::texts(required.as_slice())).with(
        "additionalProperties",
        Json::Bool(false),
    );
    Json::object().with("name", Json::text(FETCH_TOOL_NAME)).with(
        "description",
        Json::text(FETCH_PURPOSE),
    ).with("parameters", parameters)
}

/// The normalized URL that an input asks for, or what stands in its place.
pub open spec fn target_of(input: ArgumentsView) -> Result<Seq<char>, Seq<char>> {
    match url_of(input) {
        Ok(url) => match normalized(url) {
            Some(target) => Ok(target),
            None => Err(url),
        },
        Err(shown) => Err(shown),
    }
}

/// The first half of a call: the normalized URL that the engine is to fetch.
/// No command is run for an invalid input.
pub fn fetch_target(input: &ToolArguments) -> (r: Result<String, FetchError>)
    ensures
        match r {
            Ok(url) => target_of(input@) == Ok::<Seq<char>, Seq<char>>(url@),
            Err(e) => target_of(input@) is Err && e@ == (FetchFailure::InvalidUrl {
                input: target_of(input@)->Err_0,
            }),
        },
{
    match FetchInput::parse(input) {
        Ok(parsed) => normalize_url(parsed.url.as_str()),
        Err(e) => Err(e),
    }
}

/// The second half of a call: the evidence that the run of the command for a
/// normalized URL gives. The time is that of the clock.
pub fn fetch_evidence(engine: &Obscura, url: String, run: &CommandRun) -> (r: Result<
    Evidence,
    FetchError,
>)
    ensures
        match r {
            Ok(evidence) => run_outcome(engine.timeout@, url@, *run) is Ok
                && evidence.source_url@ == run_outcome(engine.timeout@, url@, *run)->Ok_0.url
                && evidence.markdown@ == run_outcome(engine.timeout@, url@, *run)->Ok_0.markdown
                && exists|secs: u64|
                evidence.collected_at@ == #[trigger] timestamp(secs as nat),
            Err(e) => run_outcome(engine.timeout@, url@, *run) == Err::<MarkdownView, FetchFailure>(e@),
        },
{
    match engine.conclude(url, run) {
        Ok(page) => Ok(Evidence::new(page.url, page.markdown)),
        Err(e) => Err(e),
    }
}

/// The URL of a fetch is the text under that name in an object; where there is
/// none, what stands there is shown in its place. The page that is fetched is
/// that of the URL, and a URL that is not of the web is shown as it is.
pub proof fn law_the_url_is_taken_by_its_name(input: ArgumentsView, url: Seq<char>)
    ensures
        url_of(input) == Ok::<Seq<char>, Seq<char>>(url) <==> input.value.kind is Object
            && input.arg("url"@) == Some(KindView::Text(url)),
        input.value.kind is Object && input.value_of("url"@) is None ==> (url_of(
            input,
        ) matches Err(shown) && shown.len() == 0),
        !(input.value.kind is Object) ==> url_of(input) == Err::<Seq<char>, Seq<char>>(
            input.value.compact,
        ),
        target_of(input) matches Ok(target) ==> url_of(input) is Ok && normalized(
            url_of(input)->Ok_0,
        ) == Some(target),
        url_of(input) is Ok && normalized(url_of(input)->Ok_0) is None ==> target_of(input)
            == Err::<Seq<char>, Seq<char>>(url_of(input)->Ok_0),
        url_of(input) is Err ==> target_of(input) == url_of(input),
        url_of(input) is Ok && normalized(url_of(input)->Ok_0) is Some ==> target_of(input) is Ok,
{
}

/// The schema asks for the one argument that is read, and for no other.
pub proof fn law_the_schema_asks_for_the_url(name: Seq<char>)
    ensures
        fetch_schema().field("name"@) == Some(JsonView::Text("fetch"@)),
        fetch_schema().field("description"@) == Some(JsonView::Text(FETCH_PURPOSE@)),
        fetch_schema().field("parameters"@) matches Some(p) && {
            &&& p.field("required"@) == Some(JsonView::Array(seq![JsonView::Text("url"@)]))
            &&& p.field("additionalProperties"@) == Some(JsonView::Bool(false))
            &&& p.field("properties"@) matches Some(all) && {
                &&& all.field(name) is Some <==> name == "url"@
                &&& all.field("url"@) matches Some(url) && url.field("type"@) == Some(
                    JsonView::Text("string"@),
                ) && url.field("format"@) == Some(JsonView::Text("uri"@))
            }
        },
{
    reveal_strlit("name");
    reveal_strlit("description");
    reveal_strlit("parameters");
    reveal_strlit("required");
    reveal_strlit("additionalProperties");
    reveal_strlit("properties");
    reveal_strlit("type");
    reveal_strlit("format");
    assert("name"@.len() == 4 && "description"@.len() == 11 && "parameters"@.len() == 10);
    assert("required"@.len() == 8 && "additionalProperties"@.len() == 20 && "properties"@.len() == 10);
    assert("type"@.len() == 4 && "format"@.len() == 6);
    reveal_with_fuel(crate::json::first_field, 5);
    assert(texts_view(seq!["url"@]) == JsonView::Array(seq![JsonView::Text("url"@)])) by {
        assert(Seq::new(1, |i: int| JsonView::Text(seq!["url"@][i])) =~= seq![
            JsonView::Text("url"@),
        ]);
    }
}

} // verus!
