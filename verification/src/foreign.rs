//! Calls into other crates and into parts of std, each behind a contract.
//!
//! Nothing here is proved: the contracts say what the called function is
//! documented to do. A result that would take pages to describe has a name,
//! and the callers' contracts speak of that name.

use scraper::ElementRef;
use serde_json::Value;
use vstd::prelude::*;
#[allow(unused_imports)]
use crate::text::{ascii_lower, boundary, byte_len, opt_view, views};

verus! {

/// What `str::to_lowercase` returns for a text.
pub uninterp spec fn lowercase(s: Seq<char>) -> Seq<char>;

/// `str::to_lowercase` depends on the text alone, and maps ASCII text letter
/// by letter.
pub assume_specification[ str::to_lowercase ](s: &str) -> (r: String)
    ensures
        r@ == lowercase(s@),
        vstd::utf8::is_ascii_chars(s@) ==> r@ == ascii_lower(s@),
;

/// How `{:?}` writes a text: in quotes, with escapes.
pub uninterp spec fn quoted(s: Seq<char>) -> Seq<char>;

/// `str`'s `Debug`, which depends on the text alone.
#[verifier::external_body]
pub(crate) fn quote(s: &str) -> (r: String)
    ensures
        r@ == quoted(s@),
{
    format!("{s:?}")
}

/// A path of the file system, which the library only hands on.
#[verifier::external_type_specification]
#[verifier::external_body]
pub struct ExPathBuf(std::path::PathBuf);

/// The path that `PathBuf::from` makes of a text.
pub uninterp spec fn path_from(text: Seq<char>) -> std::path::PathBuf;

/// `PathBuf::from` of a text, which depends on the text alone.
#[verifier::external_body]
pub(crate) fn path_of(text: &str) -> (r: std::path::PathBuf)
    ensures
        r == path_from(text@),
{
    std::path::PathBuf::from(text)
}

/// `PathBuf`'s `Clone` returns a copy of the path.
pub assume_specification[ <std::path::PathBuf as Clone>::clone ](
    path: &std::path::PathBuf,
) -> (r: std::path::PathBuf)
    ensures
        r == *path,
;

/// `SystemTime::elapsed` of the start of 1970, in whole seconds; 0 where the
/// clock stands before it. Nothing is claimed of the result.
#[verifier::external_body]
pub(crate) fn unix_now() -> u64 {
    std::time::UNIX_EPOCH.elapsed().map(|d| d.as_secs()).unwrap_or(0)
}

/// How `{:?}` writes a span of seconds and nanoseconds.
pub uninterp spec fn duration_text(secs: u64, nanos: u32) -> Seq<char>;

/// The `Debug` of `std::time::Duration`, which depends on the span alone.
#[verifier::external_body]
pub(crate) fn shown_duration(secs: u64, nanos: u32) -> (r: String)
    requires
        nanos < 1_000_000_000,
    ensures
        r@ == duration_text(secs, nanos),
{
    format!("{:?}", std::time::Duration::new(secs, nanos))
}

/// The parts of an absolute URL that the library reads.
#[derive(Debug)]
pub struct UrlParts {
    pub scheme: String,
    pub host: Option<String>,
    pub path: String,
    pub query: Option<String>,
    /// The whole URL in normal form.
    pub serialized: String,
}

/// What the parts of a URL say.
#[verifier::ext_equal]
pub struct UrlView {
    pub scheme: Seq<char>,
    pub host: Option<Seq<char>>,
    pub path: Seq<char>,
    pub query: Option<Seq<char>>,
    pub serialized: Seq<char>,
}

impl View for UrlParts {
    type V = UrlView;

    open spec fn view(&self) -> UrlView {
        UrlView {
            scheme: self.scheme@,
            host: opt_view(self.host),
            path: self.path@,
            query: opt_view(self.query),
            serialized: self.serialized@,
        }
    }
}

/// The parts of the URL that `url::Url::parse` reads from a text; `None`
/// where it refuses the text.
pub uninterp spec fn parsed_url(text: Seq<char>) -> Option<UrlView>;

/// `url::Url::parse`, with the parsed URL taken apart by its getters
/// `scheme`, `host_str`, `path`, `query` and `as_str`. The result depends on
/// the text alone.
#[verifier::external_body]
pub(crate) fn parse_url(text: &str) -> (r: Option<UrlParts>)
    ensures
        opt_view(r) == parsed_url(text@),
{
    let parsed = url::Url::parse(text).ok()?;
    Some(UrlParts {
        scheme: parsed.scheme().to_owned(),
        host: parsed.host_str().map(str::to_owned),
        path: parsed.path().to_owned(),
        query: parsed.query().map(str::to_owned),
        serialized: parsed.as_str().to_owned(),
    })
}

/// `char::from_u32` gives the character with that code point, and none for a
/// number that is no Unicode scalar value.
pub assume_specification[ char::from_u32 ](i: u32) -> (r: Option<char>)
    ensures
        r == if i <= 0xd7ff || 0xe000 <= i <= 0x10ffff {
            Some(i as char)
        } else {
            None
        },
;

/// What `String::from_utf8_lossy` reads from bytes.
pub uninterp spec fn utf8_lossy(bytes: Seq<u8>) -> Seq<char>;

/// `String::from_utf8_lossy` depends on the bytes alone, and reads valid
/// UTF-8 as it is. What it makes of other bytes is left unsaid.
#[verifier::external_body]
pub(crate) fn text_of_bytes(bytes: &[u8]) -> (r: String)
    ensures
        r@ == utf8_lossy(bytes@),
        vstd::utf8::valid_utf8(bytes@) ==> r@ == vstd::utf8::decode_utf8(bytes@),
{
    String::from_utf8_lossy(bytes).into_owned()
}

/// The groups of one regex match, the whole match first; `None` for a group
/// that took no part.
#[derive(Debug)]
pub struct Groups {
    pub texts: Vec<Option<String>>,
}

impl View for Groups {
    type V = Seq<Option<Seq<char>>>;

    open spec fn view(&self) -> Seq<Option<Seq<char>>> {
        Seq::new(self.texts@.len(), |i: int| opt_view(self.texts@[i]))
    }
}

/// Where the successive matches that `regex::Regex::find_iter` reports begin,
/// as byte offsets; none where the pattern does not compile.
pub uninterp spec fn regex_starts(pattern: Seq<char>, text: Seq<char>) -> Seq<usize>;

/// `regex::Regex::find_iter`, with each match taken by `Match::start`. The
/// offsets depend on pattern and text alone; they ascend, and each is a
/// character boundary of the text.
#[verifier::external_body]
pub(crate) fn match_starts(pattern: &str, text: &str) -> (r: Vec<usize>)
    ensures
        r@ == regex_starts(pattern@, text@),
        forall|i: int|
            0 <= i < r@.len() ==> #[trigger] r@[i] <= byte_len(text@) && boundary(
                text@,
                r@[i] as int,
            ),
        forall|i: int, j: int| 0 <= i <= j < r@.len() ==> #[trigger] r@[i] <= #[trigger] r@[j],
{
    match regex::Regex::new(pattern) {
        Ok(compiled) => compiled.find_iter(text).map(|m| m.start()).collect(),
        Err(_) => Vec::new(),
    }
}

/// The groups of the first match that `regex::Regex::captures` reports; none
/// where nothing matches or the pattern does not compile.
pub uninterp spec fn regex_first(pattern: Seq<char>, text: Seq<char>) -> Option<
    Seq<Option<Seq<char>>>,
>;

/// `regex::Regex::captures`, with each group taken as its text. The result
/// depends on pattern and text alone.
#[verifier::external_body]
pub(crate) fn first_match(pattern: &str, text: &str) -> (r: Option<Groups>)
    ensures
        opt_view(r) == regex_first(pattern@, text@),
{
    let found = regex::Regex::new(pattern).ok()?.captures(text)?;
    Some(Groups { texts: found.iter().map(|g| g.map(|m| m.as_str().to_owned())).collect() })
}

/// The groups of the successive matches that `regex::Regex::captures_iter`
/// reports; none where the pattern does not compile.
pub uninterp spec fn regex_all(pattern: Seq<char>, text: Seq<char>) -> Seq<
    Seq<Option<Seq<char>>>,
>;

/// `regex::Regex::captures_iter`, with each group taken as its text. The
/// result depends on pattern and text alone.
#[verifier::external_body]
pub(crate) fn all_matches(pattern: &str, text: &str) -> (r: Vec<Groups>)
    ensures
        views(r@) == regex_all(pattern@, text@),
{
    let Ok(compiled) = regex::Regex::new(pattern) else {
        return Vec::new();
    };
    compiled
        .captures_iter(text)
        .map(|c| Groups { texts: c.iter().map(|g| g.map(|m| m.as_str().to_owned())).collect() })
        .collect()
}

/// One node of a parsed page: how deep it stands, its text where it is a text
/// node, and the attributes that were asked for.
#[derive(Debug)]
pub struct DomNode {
    pub depth: usize,
    pub text: Option<String>,
    pub attrs: Vec<Option<String>>,
}

/// What a node says.
#[verifier::ext_equal]
pub struct NodeView {
    pub depth: nat,
    pub text: Option<Seq<char>>,
    pub attrs: Seq<Option<Seq<char>>>,
}

impl View for DomNode {
    type V = NodeView;

    open spec fn view(&self) -> NodeView {
        NodeView {
            depth: self.depth as nat,
            text: opt_view(self.text),
            attrs: Seq::new(self.attrs@.len(), |i: int| opt_view(self.attrs@[i])),
        }
    }
}

/// An element and everything below it, in document order, the element first.
#[derive(Debug)]
pub struct Subtree {
    pub nodes: Vec<DomNode>,
}

impl View for Subtree {
    type V = Seq<NodeView>;

    open spec fn view(&self) -> Seq<NodeView> {
        views(self.nodes@)
    }
}

/// Class names.
#[derive(Debug)]
pub struct ClassNames {
    pub names: Vec<String>,
}

impl View for ClassNames {
    type V = Seq<Seq<char>>;

    open spec fn view(&self) -> Seq<Seq<char>> {
        views(self.names@)
    }
}

/// The subtrees of the elements that `scraper::Html::select` finds in a page,
/// each node with the named attributes; none where the selector does not
/// parse.
pub uninterp spec fn dom_subtrees(
    html: Seq<char>,
    selector: Seq<char>,
    attrs: Seq<Seq<char>>,
) -> Seq<Seq<NodeView>>;

/// `scraper::Html::parse_document` and `Html::select`, with each element
/// taken as its `descendants`: their depth, their text by `Node::as_text`,
/// and their attributes by `Element::attr`. The result depends on the
/// arguments alone.
#[verifier::external_body]
pub(crate) fn select_subtrees(html: &str, selector: &str, attrs: &[&str]) -> (r: Vec<Subtree>)
    ensures
        views(r@) == dom_subtrees(html@, selector@, views(attrs@)),
{
    let Ok(wanted) = scraper::Selector::parse(selector) else {
        return Vec::new();
    };
    let read = |n: &scraper::Node, name: &str| n.as_element()?.attr(name).map(str::to_owned);
    let page = scraper::Html::parse_document(html);
    let nodes = |e: ElementRef<'_>| e.descendants().map(|n| DomNode {
        depth: n.ancestors().count(),
        text: n.value().as_text().map(|t| String::from(&**t)),
        attrs: attrs.iter().map(|name| read(n.value(), name)).collect(),
    }).collect();
    page.select(&wanted).map(|e| Subtree { nodes: nodes(e) }).collect()
}

/// Which nodes of the subtrees of `selector` match `inner`, by
/// `scraper::Selector::matches`; none where a selector does not parse.
pub uninterp spec fn dom_marks(
    html: Seq<char>,
    selector: Seq<char>,
    inner: Seq<char>,
) -> Seq<Seq<bool>>;

/// `scraper::Selector::matches` on every node of the subtrees that
/// `Html::select` finds, in the same order as in `select_subtrees`. The
/// result depends on the arguments alone.
#[verifier::external_body]
pub(crate) fn mark_nodes(html: &str, selector: &str, inner: &str) -> (r: Vec<Vec<bool>>)
    ensures
        views(r@) == dom_marks(html@, selector@, inner@),
{
    let (Ok(outer), Ok(inner)) = (scraper::Selector::parse(selector), scraper::Selector::parse(
        inner,
    )) else {
        return Vec::new();
    };
    let page = scraper::Html::parse_document(html);
    let hit = |e: ElementRef<'_>| inner.matches(&e);
    let marks = |e: ElementRef<'_>| e.descendants().map(
        |n| ElementRef::wrap(n).map(hit).unwrap_or_default(),
    ).collect();
    page.select(&outer).map(marks).collect()
}

/// The classes of all ancestors of each element that `scraper::Html::select`
/// finds; none where the selector does not parse.
pub uninterp spec fn dom_ancestor_classes(html: Seq<char>, selector: Seq<char>) -> Seq<
    Seq<Seq<char>>,
>;

/// `scraper::Html::select`, with each element taken as the `classes` of its
/// `ancestors`, in the same order as in `select_subtrees`. The result depends
/// on the arguments alone.
#[verifier::external_body]
pub(crate) fn ancestor_classes(html: &str, selector: &str) -> (r: Vec<ClassNames>)
    ensures
        views(r@) == dom_ancestor_classes(html@, selector@),
{
    let Ok(wanted) = scraper::Selector::parse(selector) else {
        return Vec::new();
    };
    let page = scraper::Html::parse_document(html);
    page.select(&wanted).map(|e| ClassNames {
        names: e.ancestors().filter_map(ElementRef::wrap).flat_map(
            |a| a.value().classes().map(str::to_owned),
        ).collect(),
    }).collect()
}

/// One value of a parsed JSON text, as far as the library reads it: its kind,
/// and how it is written compactly.
#[derive(Debug)]
pub struct ArgValue {
    pub kind: ArgKind,
    pub compact: String,
}

/// The kind of a parsed JSON value. A number keeps how it is written, and its
/// value where it is a whole number from 0 to `u64::MAX`.
#[derive(Debug)]
pub enum ArgKind {
    Null,
    Bool(bool),
    Number(String, Option<u64>),
    Text(String),
    Array,
    Object,
}

/// What a parsed JSON value says.
#[verifier::ext_equal]
pub struct ArgView {
    pub kind: KindView,
    pub compact: Seq<char>,
}

/// What the kind of a parsed JSON value says.
#[verifier::ext_equal]
pub enum KindView {
    Null,
    Bool(bool),
    Number(Seq<char>, Option<u64>),
    Text(Seq<char>),
    Array,
    Object,
}

impl View for ArgValue {
    type V = ArgView;

    open spec fn view(&self) -> ArgView {
        ArgView {
            kind: match self.kind {
                ArgKind::Null => KindView::Null,
                ArgKind::Bool(b) => KindView::Bool(b),
                ArgKind::Number(text, value) => KindView::Number(text@, value),
                ArgKind::Text(s) => KindView::Text(s@),
                ArgKind::Array => KindView::Array,
                ArgKind::Object => KindView::Object,
            },
            compact: self.compact@,
        }
    }
}

/// A parsed JSON text: the value, and the fields where it is an object.
#[derive(Debug)]
pub struct ToolArguments {
    pub value: ArgValue,
    pub fields: Vec<(String, ArgValue)>,
}

/// What a parsed JSON text says.
#[verifier::ext_equal]
pub struct ArgumentsView {
    pub value: ArgView,
    pub fields: Seq<(Seq<char>, ArgView)>,
}

impl View for ToolArguments {
    type V = ArgumentsView;

    open spec fn view(&self) -> ArgumentsView {
        ArgumentsView { value: self.value@, fields: views(self.fields@) }
    }
}

/// What `serde_json::from_str` reads from a text, or how it words its
/// refusal.
pub uninterp spec fn parsed_json(text: Seq<char>) -> Result<ArgumentsView, Seq<char>>;

/// `serde_json::from_str` into `serde_json::Value`, with the value and the
/// fields of an object each taken as their kind and their `to_string`. The
/// result depends on the text alone.
#[verifier::external_body]
pub(crate) fn parse_json(text: &str) -> (r: Result<ToolArguments, String>)
    ensures
        match r {
            Ok(args) => parsed_json(text@) == Ok::<ArgumentsView, Seq<char>>(args@),
            Err(e) => parsed_json(text@) == Err::<ArgumentsView, Seq<char>>(e@),
        },
{
    let plain = |v: &Value| ArgValue {
        compact: v.to_string(),
        kind: match v {
            Value::Null => ArgKind::Null,
            Value::Bool(b) => ArgKind::Bool(*b),
            Value::Number(n) => ArgKind::Number(n.to_string(), n.as_u64()),
            Value::String(s) => ArgKind::Text(s.clone()),
            Value::Array(_) => ArgKind::Array,
            Value::Object(_) => ArgKind::Object,
        }
    };
    let value: Value = serde_json::from_str(text).map_err(|e| e.to_string())?;
    let fields = value.as_object().into_iter().flatten().map(|(k, v)| (k.clone(), plain(v)));
    Ok(ToolArguments { value: plain(&value), fields: fields.collect() })
}

} // verus!
