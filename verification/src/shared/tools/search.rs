//! The search tool: its schema, and the parts of the web search behind it.

use vstd::prelude::*;
use crate::json::Json;
#[allow(unused_imports)]
use crate::json::{empty_object, texts_view, JsonView};
#[allow(unused_imports)]
use crate::shared::types::search::{recency_name, Recency, DEFAULT_TOP_K, MAX_QUERIES, MAX_QUERY_LEN,
    MAX_TOP_K};
#[allow(unused_imports)]
use crate::text::views;

pub use crate::shared::web_engine_search::ddg::{
    create_ddg_form, extract_published_date, format_ddg_query, is_ddg_anomaly, map_ddg_response,
    parse_continuation_form, parse_ddg_html, unwrap_ddg_url,
};
pub use crate::shared::web_engine_search::decode::{
    collapse_whitespace, decode_html_text, percent_decode, percent_encode,
};
pub use crate::shared::web_engine_search::dedup::{dedup_key, merge_sources};
pub use crate::shared::web_engine_search::fanout::{
    all_failed_message, map_timeout, map_transport_error,
};
pub use crate::shared::web_engine_search::startpage::{
    is_startpage_challenge, map_startpage_response, parse_search_form_inputs, parse_startpage_html,
    sanitize_startpage_url,
};

verus! {

/// The name under which the tool is offered.
pub const SEARCH_TOOL_NAME: &'static str = "search";

/// What the tool is for.
pub const SEARCH_PURPOSE: &'static str = "Fetch-only web search over DuckDuckGo and Startpage. Takes 1-8 queries, fans out to both providers in parallel, dedups by URL key and returns consensus-ranked merged results. Returned snippets are ungrounded candidates, not Evidence: fetch a result URL before citing it.";

/// The schema of the queries.
pub open spec fn queries_schema() -> JsonView {
    empty_object().with("type"@, JsonView::Text("array"@)).with(
        "description"@,
        JsonView::Text("Research queries for this Turn. 1-8 items, each 1-500 chars."@),
    ).with("minItems"@, JsonView::Number(1)).with("maxItems"@, JsonView::Number(8)).with(
        "items"@,
        empty_object().with("type"@, JsonView::Text("string"@)).with(
            "minLength"@,
            JsonView::Number(1),
        ).with("maxLength"@, JsonView::Number(500)),
    )
}

/// The schema of the number of results.
pub open spec fn top_k_schema() -> JsonView {
    empty_object().with("type"@, JsonView::Text("integer"@)).with(
        "description"@,
        JsonView::Text("Max merged results to return. Defaults to 15."@),
    ).with("minimum"@, JsonView::Number(1)).with("maximum"@, JsonView::Number(30)).with(
        "default"@,
        JsonView::Number(15),
    )
}

/// The schema of the freshness window.
pub open spec fn recency_schema() -> JsonView {
    empty_object().with("type"@, JsonView::Text("string"@)).with(
        "description"@,
        JsonView::Text(
            "Optional freshness window, mapped per provider (DDG df / Startpage with_date). Omit for no time filter."@,
        ),
    ).with("enum"@, texts_view(seq!["day"@, "week"@, "month"@, "year"@]))
}

/// The definition of the tool.
pub open spec fn search_schema() -> JsonView {
    empty_object().with(
        "$schema"@,
        JsonView::Text("https://json-schema.org/draft/2020-12/schema"@),
    ).with("type"@, JsonView::Text("object"@)).with("additionalProperties"@, JsonView::Bool(false)).with(
        "name"@,
        JsonView::Text(SEARCH_TOOL_NAME@),
    ).with("description"@, JsonView::Text(SEARCH_PURPOSE@)).with(
        "parameters"@,
        empty_object().with(
            "properties"@,
            empty_object().with("queries"@, queries_schema()).with("top_k"@, top_k_schema()).with(
                "recency"@,
                recency_schema(),
            ),
        ).with("required"@, texts_view(seq!["queries"@])).with(
            "additionalProperties"@,
            JsonView::Bool(false),
        ),
    )
}

fn schema_of_queries() -> (r: Json)
    ensures
        r@ == queries_schema(),
{
    Json::object().with("type", Json::text("array")).with(
        "description",
        Json::text("Research queries for this Turn. 1-8 items, each 1-500 chars."),
    ).with("minItems", Json::Number(1)).with("maxItems", Json::Number(8)).with(
        "items",
        Json::object().with("type", Json::text("string")).with("minLength", Json::Number(1)).with(
            "maxLength",
            Json::Number(500),
        ),
    )
}

fn schema_of_top_k() -> (r: Json)
    ensures
        r@ == top_k_schema(),
{
    Json::object().with("type", Json::text("integer")).with(
        "description",
        Json::text("Max merged results to return. Defaults to 15."),
    ).with("minimum", Json::Number(1)).with("maximum", Json::Number(30)).with(
        "default",
        Json::Number(15),
    )
}

fn schema_of_recency() -> (r: Json)
    ensures
        r@ == recency_schema(),
{
    let names = vec!["day".to_owned(), "week".to_owned(), "month".to_owned(), "year".to_owned()];
    assert(views(names@) =~= seq!["day"@, "week"@, "month"@, "year"@]);
    Json::object().with("type", Json::text("string")).with(
        "description",
        Json::text(
            "Optional freshness window, mapped per provider (DDG df / Startpage with_date). Omit for no time filter.",
        ),
    ).with("enum", Json::texts(names.as_slice()))
}

/// The definition of the tool, as the agent loop offers it.
pub fn search_tool_schema() -> (r: Json)
    ensures
        r@ == search_schema(),
{
    let required = vec!["queries".to_owned()];
    assert(views(required@) =~= seq!["queries"@]);
    let properties = Json::object().with("queries", schema_of_queries()).with(
        "top_k",
        schema_of_top_k(),
    ).with("recency", schema_of_recency());
    let parameters = Json::object().with("properties", properties).with(
        "required",
        Json::texts(required.as_slice()),
    ).with("additionalProperties", Json::Bool(false));
    Json::object().with(
        "$schema",
        Json::text("https://json-schema.org/draft/2020-12/schema"),
    ).with("type", Json::text("object")).with("additionalProperties", Json::Bool(false)).with(
        "name",
        Json::text(SEARCH_TOOL_NAME),
    ).with("description", Json::text(SEARCH_PURPOSE)).with("parameters", parameters)
}

/// The schema advertises the limits within which a search is taken, asks for
/// the queries alone, and offers no other argument than the three.
pub proof fn law_the_schema_states_the_limits(name: Seq<char>)
    ensures
        search_schema().field("name"@) == Some(JsonView::Text("search"@)),
        search_schema().field("description"@) == Some(JsonView::Text(SEARCH_PURPOSE@)),
        search_schema().field("additionalProperties"@) == Some(JsonView::Bool(false)),
        search_schema().field("parameters"@) matches Some(p) && {
            &&& p.field("required"@) == Some(JsonView::Array(seq![JsonView::Text("queries"@)]))
            &&& p.field("additionalProperties"@) == Some(JsonView::Bool(false))
            &&& p.field("properties"@) matches Some(all) && {
                &&& all.field(name) is Some <==> name == "queries"@ || name == "top_k"@ || name
                    == "recency"@
                &&& all.field("queries"@) == Some(queries_schema())
                &&& all.field("top_k"@) == Some(top_k_schema())
                &&& all.field("recency"@) == Some(recency_schema())
            }
        },
{
    lemma_search_names();
    reveal_with_fuel(crate::json::first_field, 7);
    assert(Seq::new(1, |i: int| JsonView::Text(seq!["queries"@][i])) =~= seq![
        JsonView::Text("queries"@),
    ]);
}

/// The advertised limits are those of a search: how many queries, how long
/// each, how many results and how many by default, and which windows.
pub proof fn law_the_limits_are_those_of_a_search(recency: Recency)
    ensures
        queries_schema().field("type"@) == Some(JsonView::Text("array"@)),
        queries_schema().field("minItems"@) == Some(JsonView::Number(1)),
        queries_schema().field("maxItems"@) == Some(JsonView::Number(MAX_QUERIES as nat)),
        queries_schema().field("items"@) matches Some(item) && item.field("type"@) == Some(
            JsonView::Text("string"@),
        ) && item.field("minLength"@) == Some(JsonView::Number(1)) && item.field("maxLength"@)
            == Some(JsonView::Number(MAX_QUERY_LEN as nat)),
        top_k_schema().field("type"@) == Some(JsonView::Text("integer"@)),
        top_k_schema().field("minimum"@) == Some(JsonView::Number(1)),
        top_k_schema().field("maximum"@) == Some(JsonView::Number(MAX_TOP_K as nat)),
        top_k_schema().field("default"@) == Some(JsonView::Number(DEFAULT_TOP_K as nat)),
        recency_schema().field("type"@) == Some(JsonView::Text("string"@)),
        recency_schema().field("enum"@) matches Some(JsonView::Array(names)) && names.len() == 4
            && names.contains(JsonView::Text(recency_name(recency))),
{
    lemma_search_names();
    reveal_with_fuel(crate::json::first_field, 7);
    let windows = seq!["day"@, "week"@, "month"@, "year"@];
    let names = Seq::new(4, |i: int| JsonView::Text(windows[i]));
    assert(texts_view(windows) == JsonView::Array(names));
    assert(names[0] == JsonView::Text("day"@));
    assert(names[1] == JsonView::Text("week"@));
    assert(names[2] == JsonView::Text("month"@));
    assert(names[3] == JsonView::Text("year"@));
}

proof fn lemma_search_names()
    ensures
        "$schema"@.len() == 7 && "queries"@.len() == 7 && "queries"@[0] == 'q' && "recency"@.len()
            == 7 && "recency"@[0] == 'r',
        "type"@.len() == 4 && "type"@[0] == 't' && "name"@.len() == 4 && "name"@[0] == 'n',
        "enum"@.len() == 4 && "enum"@[0] == 'e',
        "additionalProperties"@.len() == 20 && "description"@.len() == 11,
        "parameters"@.len() == 10 && "properties"@.len() == 10 && "required"@.len() == 8,
        "top_k"@.len() == 5 && "items"@.len() == 5,
        "minItems"@.len() == 8 && "minItems"@[1] == 'i' && "maxItems"@.len() == 8 && "maxItems"@[1]
            == 'a',
        "minLength"@.len() == 9 && "minLength"@[1] == 'i' && "maxLength"@.len() == 9
            && "maxLength"@[1] == 'a',
        "minimum"@.len() == 7 && "minimum"@[1] == 'i' && "maximum"@.len() == 7 && "maximum"@[1]
            == 'a' && "default"@.len() == 7 && "default"@[1] == 'e',
{
    reveal_strlit("$schema");
    reveal_strlit("queries");
    reveal_strlit("recency");
    reveal_strlit("type");
    reveal_strlit("name");
    reveal_strlit("enum");
    reveal_strlit("additionalProperties");
    reveal_strlit("description");
    reveal_strlit("parameters");
    reveal_strlit("properties");
    reveal_strlit("required");
    reveal_strlit("top_k");
    reveal_strlit("items");
    reveal_strlit("minItems");
    reveal_strlit("maxItems");
    reveal_strlit("minLength");
    reveal_strlit("maxLength");
    reveal_strlit("minimum");
    reveal_strlit("maximum");
    reveal_strlit("default");
}

} // verus!
