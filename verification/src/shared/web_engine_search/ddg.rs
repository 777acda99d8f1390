//! The DuckDuckGo leg.
//!
//! A form POST and re-POSTs of the continuation form, whose pages are read
//! with regular expressions. The leg is a state machine: the caller posts the
//! form and hands the response back.

use vstd::prelude::*;
use crate::foreign::{all_matches, first_match, match_starts, Groups};
use crate::shared::types::search::{Recency, SearchProvider, SearchProviderError, SearchResult,
    DDG_KL_DEFAULT, MAX_NUM_RESULTS};
use crate::shared::web_engine_search::decode::{collapse_whitespace, decode_entities,
    decode_html_text, percent_decode, percent_encode, replace_entities, strip_tags};
use crate::text::{ascii_lowered, begins_with, bytes_in, chars_of, contains_text,
    decimal_text, find_in, joined, prefix_of_bytes, same_text, split_on, string_of, text_between,
    text_from, trimmed, words_of};
#[allow(unused_imports)]
use crate::foreign::{regex_all, regex_first, regex_starts, utf8_lossy};
#[allow(unused_imports)]
use crate::shared::types::search::{recency_param, Failure, Hit};
#[allow(unused_imports)]
use crate::shared::web_engine_search::decode::{entities_decoded, entities_replaced, form_bytes,
    form_encoded, html_text, lemma_encoded_fields_stay_apart, lemma_plain_text_is_kept,
    without_tags};
#[allow(unused_imports)]
use crate::text::{ascii_lower, byte_len, byte_prefix, byte_range, collapse, decimal, find_from,
    has_text, is_word, join, law_byte_prefixes_are_the_longest, law_splitting_goes_piece_by_piece,
    lemma_find_from, lemma_find_is, lemma_has_middle, lemma_split_first, lemma_views_empty,
    lemma_views_push, lemma_whole_piece, lemma_words, lemma_words_join, occurs_at, opt_view, split,
    trim, views, words};

verus! {

/// The no-script frontend.
pub const DDG_HTML_URL: &'static str = "https://html.duckduckgo.com/html/";

/// The referer that goes with a form.
pub const DDG_REFERER: &'static str = "https://html.duckduckgo.com/";

/// Whether a page is the bot wall: it names `anomaly-modal` or `anomaly.js`.
pub open spec fn anomaly(body: Seq<char>) -> bool {
    has_text(body, "anomaly-modal"@) || has_text(body, "anomaly.js"@)
}

/// Whether a page is the bot wall. The status says nothing about it, so the
/// body is the signal.
pub fn is_ddg_anomaly(body: &str) -> (r: bool)
    ensures
        r == anomaly(body@),
{
    contains_text(body, "anomaly-modal") || contains_text(body, "anomaly.js")
}

/// Whether a word of a query is a date operator.
pub open spec fn is_date_operator(word: Seq<char>) -> bool {
    "before:"@.is_prefix_of(ascii_lower(word)) || "after:"@.is_prefix_of(ascii_lower(word))
}

/// The words without the date operators.
pub open spec fn without_date_operators(ws: Seq<Seq<char>>) -> Seq<Seq<char>>
    decreases ws.len(),
{
    if ws.len() == 0 {
        Seq::empty()
    } else {
        let before = without_date_operators(ws.drop_last());
        if is_date_operator(ws.last()) {
            before
        } else {
            before.push(ws.last())
        }
    }
}

/// The query as it is sent: without date operators, white space folded.
pub open spec fn sent_query(raw: Seq<char>) -> Seq<char> {
    join(without_date_operators(words(raw)), " "@)
}

/// Drops the `before:` and `after:` operators, which this engine does not
/// read; the time filter travels in a field of its own.
pub fn format_ddg_query(raw: &str) -> (r: String)
    ensures
        r@ == sent_query(raw@),
{
    broadcast use {lemma_views_push, lemma_views_empty};

    let ws = words_of(raw);
    let ghost all = views(ws@);
    let mut kept: Vec<String> = Vec::new();
    let mut i: usize = 0;
    while i < ws.len()
        invariant
            i <= ws@.len(),
            all == views(ws@),
            views(kept@) == without_date_operators(all.take(i as int)),
        decreases ws@.len() - i,
    {
        assert(all.take(i + 1).drop_last() =~= all.take(i as int));
        assert(all.take(i + 1).last() == ws@[i as int]@);
        let lower = ascii_lowered(ws[i].as_str());
        if !(begins_with(lower.as_str(), "before:") || begins_with(lower.as_str(), "after:")) {
            kept.push(ws[i].clone());
        }
        i += 1;
    }
    assert(all.take(i as int) =~= all);
    joined(kept.as_slice(), " ")
}

/// The form of the first page.
pub open spec fn first_form(query: Seq<char>, recency: Option<Recency>) -> Seq<
    (Seq<char>, Seq<char>),
> {
    let base = seq![
        ("q"@, sent_query(query)),
        ("kl"@, DDG_KL_DEFAULT@),
        ("b"@, Seq::<char>::empty()),
    ];
    match recency {
        Some(r) => base.push(("df"@, recency_param(r))),
        None => base,
    }
}

/// Builds the form of the first page: the query, the locale, the empty submit
/// button of a browser, and the time filter where one is set.
pub fn create_ddg_form(query: &str, recency: Option<Recency>) -> (r: Vec<(String, String)>)
    ensures
        views(r@) == first_form(query@, recency),
{
    let mut form: Vec<(String, String)> = Vec::new();
    form.push(("q".to_owned(), format_ddg_query(query)));
    form.push(("kl".to_owned(), DDG_KL_DEFAULT.to_owned()));
    form.push(("b".to_owned(), String::new()));
    match recency {
        Some(recency) => {
            form.push(("df".to_owned(), recency.param().to_owned()));
        },
        None => {},
    }
    assert(views(form@) =~= first_form(query@, recency));
    form
}

/// One field of a form body.
pub open spec fn form_field(field: (Seq<char>, Seq<char>)) -> Seq<char> {
    form_encoded(field.0) + "="@ + form_encoded(field.1)
}

/// The body that a form is posted as.
pub open spec fn form_text(form: Seq<(Seq<char>, Seq<char>)>) -> Seq<char> {
    join(Seq::new(form.len(), |i: int| form_field(form[i])), "&"@)
}

/// The body that a form is posted as: `name=value` pairs, percent-encoded,
/// with `&` between them.
pub fn form_body(form: &Vec<(String, String)>) -> (r: String)
    ensures
        r@ == form_text(views(form@)),
{
    broadcast use {lemma_views_push, lemma_views_empty};

    let ghost fields = Seq::new(form@.len(), |i: int| form_field(views(form@)[i]));
    let mut pairs: Vec<String> = Vec::new();
    let mut i: usize = 0;
    while i < form.len()
        invariant
            i <= form@.len(),
            fields == Seq::new(form@.len(), |i: int| form_field(views(form@)[i])),
            views(pairs@) == fields.take(i as int),
        decreases form@.len() - i,
    {
        let mut pair = percent_encode(form[i].0.as_str());
        pair.append("=");
        let value = percent_encode(form[i].1.as_str());
        pair.append(value.as_str());
        let ghost so_far = views(pairs@);
        pairs.push(pair);
        assert(views(pairs@) == so_far.push(fields[i as int]));
        i += 1;
        assert(views(pairs@) =~= fields.take(i as int));
    }
    assert(views(pairs@) =~= fields);
    joined(pairs.as_slice(), "&")
}

/// Whether a text begins like a web URL.
pub open spec fn is_web_url(s: Seq<char>) -> bool {
    "http://"@.is_prefix_of(s) || "https://"@.is_prefix_of(s)
}

/// Whether a text begins like a web URL.
pub fn web_url(s: &str) -> (r: bool)
    ensures
        r == is_web_url(s@),
{
    begins_with(s, "http://") || begins_with(s, "https://")
}

/// The name and value of a `name=value` pair.
pub open spec fn pair_parts(pair: Seq<char>) -> Option<(Seq<char>, Seq<char>)> {
    match find_from(pair, seq!['='], 0) {
        Some(eq) => Some((pair.take(eq), pair.skip(eq + 1))),
        None => None,
    }
}

/// The value of the first `uddg` pair.
pub open spec fn wrapped_target(pairs: Seq<Seq<char>>) -> Option<Seq<char>>
    decreases pairs.len(),
{
    if pairs.len() == 0 {
        None
    } else {
        match pair_parts(pairs[0]) {
            Some((name, value)) => if name == "uddg"@ {
                Some(value)
            } else {
                wrapped_target(pairs.drop_first())
            },
            None => wrapped_target(pairs.drop_first()),
        }
    }
}

/// The encoded target of a click wrapper.
pub open spec fn click_target(href: Seq<char>) -> Option<Seq<char>> {
    match find_from(href, seq!['?'], 0) {
        Some(q) => wrapped_target(split(href.skip(q + 1), '&')),
        None => None,
    }
}

/// The web URL that a result link leads to.
pub open spec fn result_url(href: Seq<char>) -> Option<Seq<char>> {
    let t = trim(href);
    if has_text(t, "duckduckgo.com/l/"@) {
        match click_target(t) {
            Some(value) => {
                let decoded = utf8_lossy(form_bytes(value));
                if is_web_url(decoded) {
                    Some(decoded)
                } else {
                    None
                }
            },
            None => None,
        }
    } else if "//"@.is_prefix_of(t) {
        Some("https://"@ + t.skip(2))
    } else if is_web_url(t) {
        Some(t)
    } else {
        None
    }
}

/// The start of a click wrapper.
pub const CLICK_WRAPPER: &'static str = "//duckduckgo.com/l/?uddg=";

/// A click wrapper around a target, with more fields behind it or none.
pub open spec fn click_wrapper(target: Seq<char>, more: Seq<char>) -> Seq<char> {
    CLICK_WRAPPER@ + form_encoded(target) + more
}

proof fn lemma_click_target(target: Seq<char>, more: Seq<char>)
    requires
        more.len() == 0 || more[0] == '&',
    ensures
        has_text(click_wrapper(target, more), "duckduckgo.com/l/"@),
        click_target(click_wrapper(target, more)) == Some(form_encoded(target)),
{
    let s = click_wrapper(target, more);
    let value = form_encoded(target);
    reveal_strlit("//duckduckgo.com/l/?uddg=");
    reveal_strlit("duckduckgo.com/l/");
    reveal_strlit("uddg");
    lemma_encoded_fields_stay_apart(target);
    assert(occurs_at(s, "duckduckgo.com/l/"@, 2)) by {
        assert(s.subrange(2, 19) =~= "duckduckgo.com/l/"@);
    }
    lemma_find_from(s, seq!['?'], 0);
    assert(occurs_at(s, seq!['?'], 19)) by {
        assert(s.subrange(19, 20) =~= seq!['?']);
    }
    assert forall|j: int| 0 <= j < 19 implies !occurs_at(s, seq!['?'], j) by {
        assert(s[j] != '?');
        assert(s.subrange(j, j + 1)[0] == s[j]);
    }
    let query = s.skip(20);
    let end = 5 + value.len();
    assert forall|i: int| 0 <= i < end implies query[i] != '&' by {
        if i >= 5 {
            assert(query[i] == value[i - 5]);
        }
    }
    lemma_split_first(query, '&', end as int);
    let pair = query.take(end as int);
    assert(pair.skip(5) =~= value);
    lemma_find_from(pair, seq!['='], 0);
    assert(occurs_at(pair, seq!['='], 4)) by {
        assert(pair.subrange(4, 5) =~= seq!['=']);
    }
    assert forall|j: int| 0 <= j < 4 implies !occurs_at(pair, seq!['='], j) by {
        assert(pair.subrange(j, j + 1)[0] == pair[j]);
        assert(pair[j] != '=');
    }
    assert(pair.take(4) =~= "uddg"@);
}

fn parts_of_pair(pair: &str) -> (r: Option<(String, String)>)
    ensures
        opt_view(r) == pair_parts(pair@),
{
    let chars = chars_of(pair);
    let equals: Vec<char> = vec!['='];
    assert(equals@ =~= seq!['=']);
    proof {
        lemma_find_from(pair@, seq!['='], 0);
    }
    let n: usize = chars.len();
    match find_in(chars.as_slice(), equals.as_slice(), 0) {
        Some(eq) => {
            let name = string_of(chars.as_slice(), 0, eq);
            let value = string_of(chars.as_slice(), eq + 1, n);
            assert(name@ =~= pair@.take(eq as int));
            assert(value@ =~= pair@.skip(eq + 1));
            Some((name, value))
        },
        None => None,
    }
}

/// The encoded target of a click wrapper: the value of the first `uddg` pair
/// behind the first `?`.
pub fn encoded_target(href: &str) -> (r: Option<String>)
    ensures
        opt_view(r) == click_target(href@),
{
    let chars = chars_of(href);
    let mark: Vec<char> = vec!['?'];
    assert(mark@ =~= seq!['?']);
    proof {
        lemma_find_from(href@, seq!['?'], 0);
    }
    let n: usize = chars.len();
    match find_in(chars.as_slice(), mark.as_slice(), 0) {
        Some(q) => {
            let rest = string_of(chars.as_slice(), q + 1, n);
            assert(rest@ =~= href@.skip(q + 1));
            let pairs = split_on(rest.as_str(), '&');
            let ghost all = views(pairs@);
            let mut i: usize = 0;
            assert(all.skip(0) =~= all);
            while i < pairs.len()
                invariant
                    i <= pairs@.len(),
                    all == views(pairs@),
                    click_target(href@) == wrapped_target(all),
                    wrapped_target(all) == wrapped_target(all.skip(i as int)),
                decreases pairs@.len() - i,
            {
                assert(all.skip(i as int)[0] == pairs@[i as int]@);
                assert(all.skip(i as int).drop_first() =~= all.skip(i + 1));
                match parts_of_pair(pairs[i].as_str()) {
                    Some((name, value)) => {
                        if same_text(name.as_str(), "uddg") {
                            return Some(value);
                        }
                    },
                    None => {},
                }
                i += 1;
            }
            None
        },
        None => None,
    }
}

/// Unwraps a result link: the target of a click wrapper, a
/// protocol-relative link as https, a web URL as it is; nothing else. A
/// click wrapper gives back the web URL that it was made for.
pub fn unwrap_ddg_url(href: &str) -> (r: Option<String>)
    ensures
        opt_view(r) == result_url(href@),
        match r {
            Some(url) => is_web_url(url@),
            None => true,
        },
        forall|target: Seq<char>, more: Seq<char>|
            trim(href@) == #[trigger] click_wrapper(target, more) && is_web_url(target) && (
            more.len() == 0 || more[0] == '&') ==> opt_view(r) == Some(target),
{
    proof {
        reveal_strlit("//");
        reveal_strlit("https://");
        reveal_strlit("duckduckgo.com/l/");
        assert forall|target: Seq<char>, more: Seq<char>|
            trim(href@) == #[trigger] click_wrapper(target, more) && (more.len() == 0 || more[0]
                == '&') implies has_text(trim(href@), "duckduckgo.com/l/"@) && click_target(
            trim(href@),
        ) == Some(form_encoded(target)) by {
            lemma_click_target(target, more);
        }
    }
    let text = trimmed(href);
    if contains_text(text.as_str(), "duckduckgo.com/l/") {
        match encoded_target(text.as_str()) {
            Some(value) => {
                let decoded = percent_decode(value.as_str());
                if web_url(decoded.as_str()) {
                    Some(decoded)
                } else {
                    None
                }
            },
            None => None,
        }
    } else if begins_with(text.as_str(), "//") {
        let mut url = "https://".to_owned();
        let rest = text_from(text.as_str(), 2);
        url.append(rest.as_str());
        assert("https://"@.is_prefix_of(url@)) by {
            assert(url@.subrange(0, 8) =~= "https://"@);
        }
        Some(url)
    } else if web_url(text.as_str()) {
        Some(text)
    } else {
        None
    }
}

/// How far behind its marker a date is looked for, in bytes.
pub const DATE_WINDOW_BYTES: usize = 320;

/// The date text behind one marker.
pub open spec fn date_behind(block: Seq<char>, marker: Seq<char>) -> Option<Seq<char>> {
    match find_from(ascii_lower(block), marker, 0) {
        Some(at) => {
            let window = byte_prefix(block.skip(at), DATE_WINDOW_BYTES as nat);
            let text = collapse(entities_decoded(without_tags(window)));
            if text.len() > 0 {
                Some(text)
            } else {
                None
            }
        },
        None => None,
    }
}

/// The date text of a result block: that behind the first marker that has
/// one.
pub open spec fn date_in(block: Seq<char>) -> Option<Seq<char>> {
    if date_behind(block, "result__age"@) is Some {
        date_behind(block, "result__age"@)
    } else if date_behind(block, "result-age"@) is Some {
        date_behind(block, "result-age"@)
    } else if date_behind(block, "published"@) is Some {
        date_behind(block, "published"@)
    } else {
        date_behind(block, "datetime"@)
    }
}

fn date_text_behind(block: &str, marker: &str) -> (r: Option<String>)
    ensures
        opt_view(r) == date_behind(block@, marker@),
{
    let lower = ascii_lowered(block);
    let lower_chars = chars_of(lower.as_str());
    let needle = chars_of(marker);
    proof {
        lemma_find_from(lower@, marker@, 0);
    }
    match find_in(lower_chars.as_slice(), needle.as_slice(), 0) {
        Some(at) => {
            let chars = chars_of(block);
            let window = prefix_of_bytes(chars.as_slice(), at, DATE_WINDOW_BYTES);
            let stripped = strip_tags(window.as_str());
            let decoded = decode_entities(stripped.as_str());
            let text = collapse_whitespace(decoded.as_str());
            if text.as_str().is_empty() {
                None
            } else {
                Some(text)
            }
        },
        None => None,
    }
}

/// The date text of a result block, where there is one.
pub fn extract_published_date(block: &str) -> (r: Option<String>)
    ensures
        opt_view(r) == date_in(block@),
{
    let first = date_text_behind(block, "result__age");
    if first.is_some() {
        return first;
    }
    let second = date_text_behind(block, "result-age");
    if second.is_some() {
        return second;
    }
    let third = date_text_behind(block, "published");
    if third.is_some() {
        return third;
    }
    date_text_behind(block, "datetime")
}

/// Where a result block opens.
pub const BLOCK_PATTERN: &'static str = r#"<div[^>]*class="[^"]*\bresult\b[^"]*"[^>]*>"#;

/// The link of a result, with its attributes in either order: target and text
/// are groups 1 and 2, or 3 and 4.
pub const TITLE_PATTERN: &'static str =
    r#"(?s)<a[^>]*class="[^"]*\bresult__a\b[^"]*"[^>]*href="([^"]+)"[^>]*>(.*?)</a>|(?s)<a[^>]*href="([^"]+)"[^>]*class="[^"]*\bresult__a\b[^"]*"[^>]*>(.*?)</a>"#;

/// The snippet of a result: its text is group 1.
pub const SNIPPET_PATTERN: &'static str =
    r#"(?s)<(?:a|div|span)[^>]*class="[^"]*\bresult__snippet\b[^"]*"[^>]*>(.*?)</(?:a|div|span)>"#;

/// A form: its content is group 1.
pub const FORM_PATTERN: &'static str = r"(?s)<form[^>]*>(.*?)</form>";

/// An input with its attributes in either order: name and value are groups 1
/// and 2, or 4 and 3.
pub const INPUT_PATTERN: &'static str =
    r#"<input[^>]*name="([^"]+)"[^>]*value="([^"]*)"[^>]*>|<input[^>]*value="([^"]*)"[^>]*name="([^"]+)"[^>]*>"#;

/// The text of one group of a match.
pub open spec fn group(groups: Seq<Option<Seq<char>>>, i: int) -> Option<Seq<char>> {
    if 0 <= i < groups.len() {
        groups[i]
    } else {
        None
    }
}

/// The groups `a` and `b`, where both took part, else the groups `c` and `d`.
pub open spec fn either_pair(
    groups: Seq<Option<Seq<char>>>,
    a: int,
    b: int,
    c: int,
    d: int,
) -> Option<(Seq<char>, Seq<char>)> {
    match (group(groups, a), group(groups, b)) {
        (Some(x), Some(y)) => Some((x, y)),
        _ => match (group(groups, c), group(groups, d)) {
            (Some(x), Some(y)) => Some((x, y)),
            _ => None,
        },
    }
}

/// The hit of a result block, from what the title and snippet patterns found
/// in it.
pub open spec fn block_hit(
    title: Option<Seq<Option<Seq<char>>>>,
    snippet: Option<Seq<Option<Seq<char>>>>,
    block: Seq<char>,
    query: Seq<char>,
    rank: nat,
) -> Option<Hit> {
    match title {
        None => None,
        Some(groups) => match either_pair(groups, 1, 2, 3, 4) {
            None => None,
            Some((href, text)) => if html_text(text).len() == 0 {
                None
            } else {
                match result_url(href) {
                    None => None,
                    Some(url) => Some(
                        Hit {
                            title: html_text(text),
                            url,
                            snippet: match snippet {
                                Some(groups) => match group(groups, 1) {
                                    Some(s) => html_text(s),
                                    None => Seq::empty(),
                                },
                                None => Seq::empty(),
                            },
                            provider: SearchProvider::DuckDuckGo,
                            query,
                            rank,
                            published_date: date_in(block),
                        },
                    ),
                }
            },
        },
    }
}

/// Block `i` of a page: from where it opens to where the next one does.
pub open spec fn page_block(html: Seq<char>, starts: Seq<usize>, i: int) -> Seq<char> {
    byte_range(
        html,
        starts[i] as int,
        if i + 1 < starts.len() {
            starts[i + 1] as int
        } else {
            byte_len(html) as int
        },
    )
}

/// The hits of the first `n` blocks of a page. Ranks are positions.
pub open spec fn page_hits(html: Seq<char>, query: Seq<char>, starts: Seq<usize>, n: nat) -> Seq<
    Hit,
>
    decreases n,
{
    if n == 0 {
        Seq::empty()
    } else {
        let before = page_hits(html, query, starts, (n - 1) as nat);
        let block = page_block(html, starts, n - 1);
        match block_hit(
            regex_first(TITLE_PATTERN@, block),
            regex_first(SNIPPET_PATTERN@, block),
            block,
            query,
            before.len(),
        ) {
            Some(hit) => before.push(hit),
            None => before,
        }
    }
}

/// The hits of a page.
pub open spec fn ddg_hits(html: Seq<char>, query: Seq<char>) -> Seq<Hit> {
    let starts = regex_starts(BLOCK_PATTERN@, html);
    page_hits(html, query, starts, starts.len())
}

fn group_text(groups: &Groups, i: usize) -> (r: Option<&String>)
    ensures
        match r {
            Some(s) => group(groups@, i as int) == Some(s@),
            None => group(groups@, i as int) is None,
        },
{
    if i < groups.texts.len() {
        assert(groups@[i as int] == opt_view(groups.texts@[i as int]));
        match &groups.texts[i] {
            Some(s) => Some(s),
            None => None,
        }
    } else {
        None
    }
}

fn pair_of(groups: &Groups, a: usize, b: usize, c: usize, d: usize) -> (r: Option<
    (&String, &String),
>)
    ensures
        match r {
            Some((x, y)) => either_pair(groups@, a as int, b as int, c as int, d as int) == Some(
                (x@, y@),
            ),
            None => either_pair(groups@, a as int, b as int, c as int, d as int) is None,
        },
{
    match (group_text(groups, a), group_text(groups, b)) {
        (Some(x), Some(y)) => {
            return Some((x, y));
        },
        _ => {},
    }
    match (group_text(groups, c), group_text(groups, d)) {
        (Some(x), Some(y)) => Some((x, y)),
        _ => None,
    }
}

/// Reads one result block from what the title and snippet patterns found in
/// it. A block without a link, with an empty title or without a web URL gives
/// no row.
pub fn block_row(
    title: &Option<Groups>,
    snippet: &Option<Groups>,
    block: &str,
    query: &str,
    rank: usize,
) -> (r: Option<SearchResult>)
    ensures
        opt_view(r) == block_hit(
            opt_view(*title),
            opt_view(*snippet),
            block@,
            query@,
            rank as nat,
        ),
{
    let groups = match title {
        Some(groups) => groups,
        None => {
            return None;
        },
    };
    let (href, text) = match pair_of(groups, 1, 2, 3, 4) {
        Some(pair) => pair,
        None => {
            return None;
        },
    };
    let title = decode_html_text(text.as_str());
    if title.as_str().is_empty() {
        return None;
    }
    let url = match unwrap_ddg_url(href.as_str()) {
        Some(url) => url,
        None => {
            return None;
        },
    };
    let snippet = match snippet {
        Some(groups) => match group_text(groups, 1) {
            Some(s) => decode_html_text(s.as_str()),
            None => String::new(),
        },
        None => String::new(),
    };
    let published_date = extract_published_date(block);
    let row = SearchResult {
        title,
        url,
        snippet,
        provider: SearchProvider::DuckDuckGo,
        query: query.to_owned(),
        rank,
        published_date,
    };
    Some(row)
}

/// Reads a page: one row for each result block with a title and a web URL, in
/// document order.
pub fn parse_ddg_html(html: &str, query: &str) -> (r: Vec<SearchResult>)
    ensures
        views(r@) == ddg_hits(html@, query@),
{
    broadcast use {lemma_views_push, lemma_views_empty};

    let starts = match_starts(BLOCK_PATTERN, html);
    let end: usize = bytes_in(html);
    proof {
        vstd::utf8::encode_utf8_valid_utf8(html@);
        vstd::utf8::is_char_boundary_start_end_of_seq(vstd::utf8::encode_utf8(html@));
    }
    let mut rows: Vec<SearchResult> = Vec::new();
    let mut i: usize = 0;
    while i < starts.len()
        invariant
            i <= starts@.len(),
            end == byte_len(html@),
            crate::text::boundary(html@, end as int),
            forall|i: int|
                0 <= i < starts@.len() ==> #[trigger] starts@[i] <= byte_len(html@)
                    && crate::text::boundary(html@, starts@[i] as int),
            forall|i: int, j: int|
                0 <= i <= j < starts@.len() ==> #[trigger] starts@[i] <= #[trigger] starts@[j],
            rows@.len() <= i,
            views(rows@) == page_hits(html@, query@, starts@, i as nat),
        decreases starts@.len() - i,
    {
        let stop: usize = if i + 1 < starts.len() {
            starts[i + 1]
        } else {
            end
        };
        let block = text_between(html, starts[i], stop);
        assert(block@ == page_block(html@, starts@, i as int));
        let title = first_match(TITLE_PATTERN, block.as_str());
        let snippet = first_match(SNIPPET_PATTERN, block.as_str());
        match block_row(&title, &snippet, block.as_str(), query, rows.len()) {
            Some(row) => {
                rows.push(row);
            },
            None => {},
        }
        i += 1;
    }
    rows
}

/// The name and value of one matched input: entities decoded, white space as
/// it is.
pub open spec fn input_field(groups: Seq<Option<Seq<char>>>) -> Option<(Seq<char>, Seq<char>)> {
    match either_pair(groups, 1, 2, 4, 3) {
        Some((name, value)) => Some((entities_replaced(name), entities_replaced(value))),
        None => None,
    }
}

/// An input of the next page's form comes back verbatim: where neither its
/// name nor its value holds a `&`, both are as they stand in the page.
pub proof fn law_inputs_come_back_verbatim(
    groups: Seq<Option<Seq<char>>>,
    name: Seq<char>,
    value: Seq<char>,
)
    requires
        either_pair(groups, 1, 2, 4, 3) == Some((name, value)),
        !name.contains('&'),
        !value.contains('&'),
    ensures
        input_field(groups) == Some((name, value)),
{
    lemma_plain_text_is_kept(name);
    lemma_plain_text_is_kept(value);
}

/// The fields of the matched inputs, in order.
pub open spec fn input_fields(found: Seq<Seq<Option<Seq<char>>>>) -> Seq<(Seq<char>, Seq<char>)>
    decreases found.len(),
{
    if found.len() == 0 {
        Seq::empty()
    } else {
        match input_field(found.last()) {
            Some(field) => input_fields(found.drop_last()).push(field),
            None => input_fields(found.drop_last()),
        }
    }
}

/// Whether a form has a field of this name that is not empty.
pub open spec fn has_field(form: Seq<(Seq<char>, Seq<char>)>, name: Seq<char>) -> bool {
    exists|i: int| 0 <= i < form.len() && (#[trigger] form[i]).0 == name && form[i].1.len() > 0
}

/// Whether a form leads to a next page: it carries an offset and a token.
pub open spec fn continues(form: Seq<(Seq<char>, Seq<char>)>) -> bool {
    has_field(form, "s"@) && has_field(form, "vqd"@)
}

/// The fields of the first form that leads to a next page. `contents` are the
/// texts inside the forms of the page.
pub open spec fn next_form(contents: Seq<Seq<Option<Seq<char>>>>) -> Option<
    Seq<(Seq<char>, Seq<char>)>,
>
    decreases contents.len(),
{
    if contents.len() == 0 {
        None
    } else {
        match group(contents[0], 1) {
            Some(content) => {
                let form = input_fields(regex_all(INPUT_PATTERN@, content));
                if continues(form) {
                    Some(form)
                } else {
                    next_form(contents.drop_first())
                }
            },
            None => next_form(contents.drop_first()),
        }
    }
}

/// The form of the next page, if the page has one.
pub open spec fn continuation(html: Seq<char>) -> Option<Seq<(Seq<char>, Seq<char>)>> {
    next_form(regex_all(FORM_PATTERN@, html))
}

/// The fields of the inputs that the input pattern found.
pub fn fields_of(found: &Vec<Groups>) -> (r: Vec<(String, String)>)
    ensures
        views(r@) == input_fields(views(found@)),
{
    broadcast use {lemma_views_push, lemma_views_empty};

    let ghost all = views(found@);
    let mut out: Vec<(String, String)> = Vec::new();
    let mut i: usize = 0;
    while i < found.len()
        invariant
            i <= found@.len(),
            all == views(found@),
            views(out@) == input_fields(all.take(i as int)),
        decreases found@.len() - i,
    {
        assert(all.take(i + 1).drop_last() =~= all.take(i as int));
        assert(all.take(i + 1).last() == found@[i as int]@);
        match pair_of(&found[i], 1, 2, 4, 3) {
            Some((name, value)) => {
                out.push((replace_entities(name.as_str()), replace_entities(value.as_str())));
            },
            None => {},
        }
        i += 1;
    }
    assert(all.take(i as int) =~= all);
    out
}

/// Whether a form has a field of this name that is not empty.
pub fn field_filled(form: &Vec<(String, String)>, name: &str) -> (r: bool)
    ensures
        r == has_field(views(form@), name@),
{
    let ghost all = views(form@);
    let mut i: usize = 0;
    while i < form.len()
        invariant
            i <= form@.len(),
            all == views(form@),
            forall|k: int|
                0 <= k < i ==> !((#[trigger] all[k]).0 == name@ && all[k].1.len() > 0),
        decreases form@.len() - i,
    {
        assert(all[i as int] == form@[i as int]@);
        if same_text(form[i].0.as_str(), name) && !form[i].1.as_str().is_empty() {
            return true;
        }
        i += 1;
    }
    false
}

/// Reads the form of the next page: all its inputs, entities decoded and white
/// space as it is. A form without a filled `s` and `vqd` leads nowhere.
pub fn parse_continuation_form(html: &str) -> (r: Option<Vec<(String, String)>>)
    ensures
        match r {
            Some(form) => continuation(html@) == Some(views(form@)) && continues(views(form@)),
            None => continuation(html@) is None,
        },
{
    let forms = all_matches(FORM_PATTERN, html);
    let ghost all = views(forms@);
    let mut i: usize = 0;
    assert(all.skip(0) =~= all);
    while i < forms.len()
        invariant
            i <= forms@.len(),
            all == views(forms@),
            continuation(html@) == next_form(all.skip(i as int)),
        decreases forms@.len() - i,
    {
        assert(all.skip(i as int)[0] == forms@[i as int]@);
        assert(all.skip(i as int).drop_first() =~= all.skip(i + 1));
        match group_text(&forms[i], 1) {
            Some(content) => {
                let form = fields_of(&all_matches(INPUT_PATTERN, content.as_str()));
                if field_filled(&form, "s") && field_filled(&form, "vqd") {
                    return Some(form);
                }
            },
            None => {},
        }
        i += 1;
    }
    None
}

/// What the bot wall is reported as.
pub const DDG_CHALLENGE_DETAIL: &'static str =
    "DuckDuckGo blocked the request with a bot-detection challenge. Retry via an accredited provider or later.";

/// What becomes of a finished exchange, given the hits of its body.
pub open spec fn ddg_exchange(status: u16, body: Seq<char>, hits: Seq<Hit>) -> Result<
    Seq<Hit>,
    Failure,
> {
    if anomaly(body) {
        Err(
            Failure::Challenge {
                provider: SearchProvider::DuckDuckGo,
                detail: DDG_CHALLENGE_DETAIL@,
            },
        )
    } else if !(200 <= status < 300) {
        Err(
            Failure::Upstream {
                provider: SearchProvider::DuckDuckGo,
                detail: "DuckDuckGo HTML error ("@ + decimal(status as nat) + ")"@,
            },
        )
    } else {
        Ok(hits)
    }
}

/// The view of rows or a failure.
pub open spec fn rows_view(r: Result<Vec<SearchResult>, SearchProviderError>) -> Result<
    Seq<Hit>,
    Failure,
> {
    match r {
        Ok(rows) => Ok(views(rows@)),
        Err(e) => Err(e@),
    }
}

/// Turns a finished exchange into rows or a failure: the bot wall is a
/// challenge whatever the status, another status outside 2xx is an upstream
/// error, and a page without results is no error.
pub fn map_ddg_response(status: u16, body: &str, query: &str) -> (r: Result<
    Vec<SearchResult>,
    SearchProviderError,
>)
    ensures
        rows_view(r) == ddg_exchange(status, body@, ddg_hits(body@, query@)),
{
    if is_ddg_anomaly(body) {
        return Err(
            SearchProviderError::Challenge {
                provider: SearchProvider::DuckDuckGo,
                detail: DDG_CHALLENGE_DETAIL.to_owned(),
            },
        );
    }
    if !(200 <= status && status < 300) {
        let mut detail = "DuckDuckGo HTML error (".to_owned();
        let code = decimal_text(status as u64);
        detail.append(code.as_str());
        detail.append(")");
        return Err(SearchProviderError::Upstream { provider: SearchProvider::DuckDuckGo, detail });
    }
    Ok(parse_ddg_html(body, query))
}

/// Whether one of the hits has this URL.
pub open spec fn has_url(hits: Seq<Hit>, url: Seq<char>) -> bool {
    exists|i: int| 0 <= i < hits.len() && (#[trigger] hits[i]).url == url
}

/// A hit at another rank.
pub open spec fn at_rank(h: Hit, rank: nat) -> Hit {
    Hit {
        title: h.title,
        url: h.url,
        snippet: h.snippet,
        provider: h.provider,
        query: h.query,
        rank,
        published_date: h.published_date,
    }
}

/// The hits of a leg after one more page: URLs that are new come behind, in
/// page order, until the leg is full. Ranks go on over the pages.
pub open spec fn absorbed(hits: Seq<Hit>, page: Seq<Hit>) -> Seq<Hit>
    decreases page.len(),
{
    if page.len() == 0 {
        hits
    } else {
        let before = absorbed(hits, page.drop_last());
        let h = page.last();
        if before.len() >= MAX_NUM_RESULTS || has_url(before, h.url) {
            before
        } else {
            before.push(at_rank(h, before.len()))
        }
    }
}

fn url_known(rows: &Vec<SearchResult>, url: &str) -> (r: bool)
    ensures
        r == has_url(views(rows@), url@),
{
    let ghost hits = views(rows@);
    let mut i: usize = 0;
    while i < rows.len()
        invariant
            i <= rows@.len(),
            hits == views(rows@),
            forall|k: int| 0 <= k < i ==> (#[trigger] hits[k]).url != url@,
        decreases rows@.len() - i,
    {
        assert(hits[i as int] == rows@[i as int]@);
        if same_text(rows[i].url.as_str(), url) {
            return true;
        }
        i += 1;
    }
    false
}

/// Takes one more page into the rows of a leg.
pub fn absorb_page(rows: &mut Vec<SearchResult>, page: Vec<SearchResult>)
    ensures
        views(final(rows)@) == absorbed(views(old(rows)@), views(page@)),
{
    let ghost start = views(rows@);
    let ghost source = page@;
    let ghost all = views(page@);
    for row in it: page
        invariant
            it.seq() == source,
            all == views(source),
            views(rows@) == absorbed(start, all.take(it.index() as int)),
    {
        let ghost n = it.index() as int;
        proof {
            assert(all.take(n + 1).drop_last() =~= all.take(n));
            assert(all.take(n + 1).last() == row@);
            assert(views(rows@).len() == rows@.len());
        }
        if rows.len() < MAX_NUM_RESULTS && !url_known(rows, row.url.as_str()) {
            let ghost before = rows@;
            let ghost h = row@;
            let rank: usize = rows.len();
            let placed = SearchResult {
                title: row.title,
                url: row.url,
                snippet: row.snippet,
                provider: row.provider,
                query: row.query,
                rank,
                published_date: row.published_date,
            };
            proof {
                assert(placed@ =~= at_rank(h, before.len()));
                lemma_views_push(before, placed);
            }
            rows.push(placed);
        }
    }
    assert(all.take(all.len() as int) =~= all);
}

/// One running leg: what it has found, the form to post next and the offset
/// that the last continuation form asked for.
#[derive(Debug)]
pub struct DdgLeg {
    pub query: String,
    pub rows: Vec<SearchResult>,
    pub form: Vec<(String, String)>,
    pub last_s: Option<String>,
}

/// What a running leg holds.
#[verifier::ext_equal]
pub struct DdgLegView {
    pub query: Seq<char>,
    pub rows: Seq<Hit>,
    pub form: Seq<(Seq<char>, Seq<char>)>,
    pub last_s: Option<Seq<char>>,
}

impl View for DdgLeg {
    type V = DdgLegView;

    open spec fn view(&self) -> DdgLegView {
        DdgLegView {
            query: self.query@,
            rows: views(self.rows@),
            form: views(self.form@),
            last_s: opt_view(self.last_s),
        }
    }
}

/// What a leg does next: post its form again, or end.
#[derive(Debug)]
pub enum DdgStep {
    Post(DdgLeg),
    Done(Result<Vec<SearchResult>, SearchProviderError>),
}

/// What a step says.
#[verifier::ext_equal]
pub enum DdgStepView {
    Post(DdgLegView),
    Done(Result<Seq<Hit>, Failure>),
}

impl View for DdgStep {
    type V = DdgStepView;

    open spec fn view(&self) -> DdgStepView {
        match *self {
            DdgStep::Post(leg) => DdgStepView::Post(leg@),
            DdgStep::Done(outcome) => DdgStepView::Done(rows_view(outcome)),
        }
    }
}

/// The value of the first field of this name.
pub open spec fn field_value(form: Seq<(Seq<char>, Seq<char>)>, name: Seq<char>) -> Option<
    Seq<char>,
>
    decreases form.len(),
{
    if form.len() == 0 {
        None
    } else if form[0].0 == name {
        Some(form[0].1)
    } else {
        field_value(form.drop_first(), name)
    }
}

fn value_of_field(form: &Vec<(String, String)>, name: &str) -> (r: Option<String>)
    ensures
        opt_view(r) == field_value(views(form@), name@),
{
    let ghost all = views(form@);
    let mut i: usize = 0;
    assert(all.skip(0) =~= all);
    while i < form.len()
        invariant
            i <= form@.len(),
            all == views(form@),
            field_value(all, name@) == field_value(all.skip(i as int), name@),
        decreases form@.len() - i,
    {
        assert(all.skip(i as int)[0] == form@[i as int]@);
        assert(all.skip(i as int).drop_first() =~= all.skip(i + 1));
        if same_text(form[i].0.as_str(), name) {
            return Some(form[i].1.clone());
        }
        i += 1;
    }
    None
}

/// What a leg does after a page. A failed exchange ends it; so does a full
/// leg, a page without a continuation form, and a continuation form that does
/// not advance the offset.
pub open spec fn ddg_step(
    leg: DdgLegView,
    page: Result<Seq<Hit>, Failure>,
    next: Option<Seq<(Seq<char>, Seq<char>)>>,
) -> DdgStepView {
    match page {
        Err(e) => DdgStepView::Done(Err(e)),
        Ok(hits) => {
            let rows = absorbed(leg.rows, hits);
            match next {
                None => DdgStepView::Done(Ok(rows)),
                Some(form) => {
                    let s = field_value(form, "s"@);
                    if rows.len() >= MAX_NUM_RESULTS || (s is Some && s == leg.last_s) {
                        DdgStepView::Done(Ok(rows))
                    } else {
                        DdgStepView::Post(
                            DdgLegView { query: leg.query, rows, form, last_s: s },
                        )
                    }
                },
            }
        },
    }
}

/// The view of an optional form.
pub open spec fn form_view(form: Option<Vec<(String, String)>>) -> Option<
    Seq<(Seq<char>, Seq<char>)>,
> {
    match form {
        Some(form) => Some(views(form@)),
        None => None,
    }
}

fn same_option(a: &Option<String>, b: &Option<String>) -> (r: bool)
    ensures
        r == (opt_view(*a) == opt_view(*b)),
{
    match (a, b) {
        (Some(x), Some(y)) => same_text(x.as_str(), y.as_str()),
        (None, None) => true,
        _ => false,
    }
}

impl DdgLeg {
    /// A leg that has the form of the first page to post.
    pub fn start(query: &str, recency: Option<Recency>) -> (r: DdgLeg)
        ensures
            r@ == (DdgLegView {
                query: query@,
                rows: Seq::empty(),
                form: first_form(query@, recency),
                last_s: None,
            }),
    {
        let rows: Vec<SearchResult> = Vec::new();
        proof {
            lemma_views_empty(rows@);
        }
        DdgLeg {
            query: query.to_owned(),
            rows,
            form: create_ddg_form(query, recency),
            last_s: None,
        }
    }

    /// The body to post.
    pub fn body(&self) -> (r: String)
        ensures
            r@ == form_text(self@.form),
    {
        form_body(&self.form)
    }

    /// Goes on after a page: its rows or failure, and the form of the next
    /// page.
    pub fn after_page(
        self,
        page: Result<Vec<SearchResult>, SearchProviderError>,
        next: Option<Vec<(String, String)>>,
    ) -> (r: DdgStep)
        ensures
            r@ == ddg_step(self@, rows_view(page), form_view(next)),
    {
        let ghost leg = self@;
        let hits = match page {
            Ok(hits) => hits,
            Err(e) => {
                return DdgStep::Done(Err(e));
            },
        };
        let mut rows = self.rows;
        absorb_page(&mut rows, hits);
        assert(views(rows@).len() == rows@.len());
        match next {
            None => DdgStep::Done(Ok(rows)),
            Some(form) => {
                let s = value_of_field(&form, "s");
                if rows.len() >= MAX_NUM_RESULTS || (s.is_some() && same_option(
                    &s,
                    &self.last_s,
                )) {
                    DdgStep::Done(Ok(rows))
                } else {
                    DdgStep::Post(DdgLeg { query: self.query, rows, form, last_s: s })
                }
            },
        }
    }

    /// Goes on after a finished exchange.
    pub fn on_response(self, status: u16, body: &str) -> (r: DdgStep)
        ensures
            r@ == ddg_step(
                self@,
                ddg_exchange(status, body@, ddg_hits(body@, self@.query)),
                continuation(body@),
            ),
    {
        let page = map_ddg_response(status, body, self.query.as_str());
        let next = parse_continuation_form(body);
        self.after_page(page, next)
    }
}

/// What holds of the rows of every leg: ranks are positions, no URL occurs
/// twice, and there are at most `MAX_NUM_RESULTS`.
pub open spec fn leg_rows_ok(rows: Seq<Hit>) -> bool {
    &&& rows.len() <= MAX_NUM_RESULTS
    &&& forall|i: int| 0 <= i < rows.len() ==> (#[trigger] rows[i]).rank == i
    &&& forall|i: int, j: int|
        0 <= i < j < rows.len() ==> (#[trigger] rows[i]).url != (#[trigger] rows[j]).url
}

/// Taking in a page keeps the rows of a leg in order: ranks stay positions
/// over all pages, no URL comes in twice, the leg is never over-full, and
/// what was found stays.
pub proof fn law_pages_keep_leg_rows_in_order(hits: Seq<Hit>, page: Seq<Hit>)
    requires
        leg_rows_ok(hits),
    ensures
        leg_rows_ok(absorbed(hits, page)),
        hits.is_prefix_of(absorbed(hits, page)),
    decreases page.len(),
{
    if page.len() > 0 {
        law_pages_keep_leg_rows_in_order(hits, page.drop_last());
        let before = absorbed(hits, page.drop_last());
        let after = absorbed(hits, page);
        assert forall|i: int, j: int| 0 <= i < j < after.len() implies (#[trigger] after[i]).url != (
        #[trigger] after[j]).url by {
            assert(before[i].url == after[i].url);
        }
    } else {
        assert(hits.subrange(0, hits.len() as int) =~= hits);
    }
}

/// Every step of a leg, whatever page and form come back, keeps its rows in
/// order; a leg that posts again has room left.
pub proof fn law_ddg_steps_keep_rows_in_order(
    leg: DdgLegView,
    page: Result<Seq<Hit>, Failure>,
    next: Option<Seq<(Seq<char>, Seq<char>)>>,
)
    requires
        leg_rows_ok(leg.rows),
    ensures
        match ddg_step(leg, page, next) {
            DdgStepView::Post(after) => leg_rows_ok(after.rows) && after.rows.len()
                < MAX_NUM_RESULTS && after.query == leg.query,
            DdgStepView::Done(Ok(rows)) => leg_rows_ok(rows),
            DdgStepView::Done(Err(e)) => page == Err::<Seq<Hit>, Failure>(e),
        },
{
    match page {
        Ok(hits) => {
            law_pages_keep_leg_rows_in_order(leg.rows, hits);
        },
        Err(e) => {},
    }
}

/// What holds of every hit that a page gives: a title, a web URL, the query
/// that was asked, and ranks that are positions.
pub proof fn law_page_hits_are_usable(
    html: Seq<char>,
    query: Seq<char>,
    starts: Seq<usize>,
    n: nat,
)
    ensures
        forall|i: int|
            0 <= i < page_hits(html, query, starts, n).len() ==> {
                let h = #[trigger] page_hits(html, query, starts, n)[i];
                &&& h.title.len() > 0
                &&& is_web_url(h.url)
                &&& h.query == query
                &&& h.provider == SearchProvider::DuckDuckGo
                &&& h.rank == i
            },
        page_hits(html, query, starts, n).len() <= n,
    decreases n,
{
    if n > 0 {
        law_page_hits_are_usable(html, query, starts, (n - 1) as nat);
        let before = page_hits(html, query, starts, (n - 1) as nat);
        let after = page_hits(html, query, starts, n);
        let block = page_block(html, starts, n - 1);
        let found = block_hit(
            regex_first(TITLE_PATTERN@, block),
            regex_first(SNIPPET_PATTERN@, block),
            block,
            query,
            before.len(),
        );
        match found {
            Some(h) => {
                let (href, text) = either_pair(
                    regex_first(TITLE_PATTERN@, block)->0,
                    1,
                    2,
                    3,
                    4,
                )->0;
                lemma_result_url_is_web(href);
            },
            None => {},
        }
        assert forall|i: int| 0 <= i < after.len() implies {
            let h = #[trigger] after[i];
            &&& h.title.len() > 0
            &&& is_web_url(h.url)
            &&& h.query == query
            &&& h.provider == SearchProvider::DuckDuckGo
            &&& h.rank == i
        } by {
            if i < before.len() {
                assert(after[i] == before[i]);
            }
        }
    }
}

/// A result link leads to a web URL or nowhere.
pub proof fn lemma_result_url_is_web(href: Seq<char>)
    ensures
        match result_url(href) {
            Some(url) => is_web_url(url),
            None => true,
        },
{
    let t = trim(href);
    if "//"@.is_prefix_of(t) {
        reveal_strlit("https://");
        let url = "https://"@ + t.skip(2);
        assert(url.subrange(0, 8) =~= "https://"@);
    }
}

proof fn lemma_operators_dropped(ws: Seq<Seq<char>>)
    requires
        forall|i: int| 0 <= i < ws.len() ==> is_word(#[trigger] ws[i]),
    ensures
        forall|i: int|
            0 <= i < without_date_operators(ws).len() ==> is_word(
                #[trigger] without_date_operators(ws)[i],
            ) && !is_date_operator(without_date_operators(ws)[i]),
    decreases ws.len(),
{
    if ws.len() > 0 {
        assert(is_word(ws[ws.len() - 1]));
        assert forall|i: int| 0 <= i < ws.drop_last().len() implies is_word(
            #[trigger] ws.drop_last()[i],
        ) by {
            assert(ws.drop_last()[i] == ws[i]);
        }
        lemma_operators_dropped(ws.drop_last());
        let before = without_date_operators(ws.drop_last());
        assert forall|i: int| 0 <= i < without_date_operators(ws).len() implies is_word(
            #[trigger] without_date_operators(ws)[i],
        ) && !is_date_operator(without_date_operators(ws)[i]) by {
            if i < before.len() {
                assert(without_date_operators(ws)[i] == before[i]);
            } else {
                assert(without_date_operators(ws)[i] == ws[ws.len() - 1]);
            }
        }
    }
}

proof fn lemma_nothing_to_drop(ws: Seq<Seq<char>>)
    requires
        forall|i: int| 0 <= i < ws.len() ==> !is_date_operator(#[trigger] ws[i]),
    ensures
        without_date_operators(ws) == ws,
    decreases ws.len(),
{
    if ws.len() > 0 {
        assert(!is_date_operator(ws[ws.len() - 1]));
        assert forall|i: int| 0 <= i < ws.drop_last().len() implies !is_date_operator(
            #[trigger] ws.drop_last()[i],
        ) by {
            assert(ws.drop_last()[i] == ws[i]);
        }
        lemma_nothing_to_drop(ws.drop_last());
        assert(ws.drop_last().push(ws.last()) =~= ws);
    } else {
        assert(without_date_operators(ws) =~= ws);
    }
}

/// No word of a query that is sent is a date operator, and sending it again
/// changes nothing.
pub proof fn law_sent_queries_have_no_date_operators(raw: Seq<char>)
    ensures
        forall|i: int|
            0 <= i < words(sent_query(raw)).len() ==> !is_date_operator(
                #[trigger] words(sent_query(raw))[i],
            ),
        sent_query(sent_query(raw)) == sent_query(raw),
{
    lemma_words(raw);
    lemma_operators_dropped(words(raw));
    lemma_words_join(without_date_operators(words(raw)));
    lemma_nothing_to_drop(without_date_operators(words(raw)));
}

/// The wall is recognised by either of its markers, wherever it stands; a page
/// without the letter that both begin with is none.
pub proof fn law_anomalies_are_recognised(before: Seq<char>, after: Seq<char>)
    ensures
        anomaly(before + "anomaly-modal"@ + after),
        anomaly(before + "anomaly.js"@ + after),
        !before.contains('a') ==> !anomaly(before),
{
    lemma_has_middle(before, "anomaly-modal"@, after);
    lemma_has_middle(before, "anomaly.js"@, after);
    assert("anomaly-modal"@.len() > 0 && "anomaly-modal"@[0] == 'a') by {
        reveal_strlit("anomaly-modal");
    }
    assert("anomaly.js"@.len() > 0 && "anomaly.js"@[0] == 'a') by {
        reveal_strlit("anomaly.js");
    }
    lemma_holds_the_start(before, "anomaly-modal"@);
    lemma_holds_the_start(before, "anomaly.js"@);
}

proof fn lemma_holds_the_start(s: Seq<char>, needle: Seq<char>)
    requires
        needle.len() > 0,
    ensures
        has_text(s, needle) ==> s.contains(needle[0]),
{
    if has_text(s, needle) {
        let i = choose|i: int| occurs_at(s, needle, i);
        assert(s[i] == s.subrange(i, i + needle.len())[0]);
    }
}

/// An answer is read for its hits exactly where it is no wall and a success.
/// A wall is told before a failed status, and a failed status is named.
pub proof fn law_ddg_answers_are_told(status: u16, body: Seq<char>, hits: Seq<Hit>)
    ensures
        ({
            let r = ddg_exchange(status, body, hits);
            &&& r == Ok::<Seq<Hit>, Failure>(hits) <==> !anomaly(body) && 200 <= status <= 299
            &&& anomaly(body) <==> (r matches Err(Failure::Challenge { provider, .. }) && provider
                == SearchProvider::DuckDuckGo)
            &&& !anomaly(body) && !(200 <= status <= 299) ==> (r matches Err(
                Failure::Upstream { provider, detail },
            ) && provider == SearchProvider::DuckDuckGo && has_text(
                detail,
                decimal(status as nat),
            ))
        }),
{
    lemma_has_middle("DuckDuckGo HTML error ("@, decimal(status as nat), ")"@);
}

/// Date operators are told by their names, in whatever case, with anything
/// behind the colon; a word that does not begin with their letters is none.
pub proof fn law_date_operators_are_told(name: Seq<char>, rest: Seq<char>, word: Seq<char>)
    ensures
        ascii_lower(name) == "before:"@ || ascii_lower(name) == "after:"@ ==> is_date_operator(
            name + rest,
        ),
        word.len() < 6 ==> !is_date_operator(word),
        word.len() > 0 && word[0] != 'a' && word[0] != 'A' && word[0] != 'b' && word[0] != 'B'
            ==> !is_date_operator(word),
        !word.contains(':') ==> !is_date_operator(word),
{
    reveal_strlit("before:");
    reveal_strlit("after:");
    let all = name + rest;
    let lowered = ascii_lower(all);
    assert(lowered.len() == all.len());
    assert(lowered.take(name.len() as int) =~= ascii_lower(name));
    let low = ascii_lower(word);
    if "before:"@.is_prefix_of(low) {
        assert(low.subrange(0, 7)[0] == low[0]);
        assert(low.subrange(0, 7)[6] == low[6]);
        assert(word.contains(word[6]));
    }
    if "after:"@.is_prefix_of(low) {
        assert(low.subrange(0, 6)[0] == low[0]);
        assert(low.subrange(0, 6)[5] == low[5]);
        assert(word.contains(word[5]));
    }
}

/// How many of the first `n` words are no date operators.
pub open spec fn other_words_to(ws: Seq<Seq<char>>, n: int) -> nat
    decreases n,
{
    if n <= 0 {
        0
    } else {
        other_words_to(ws, n - 1) + if is_date_operator(ws[n - 1]) {
            0nat
        } else {
            1nat
        }
    }
}

proof fn lemma_other_words_to(ws: Seq<Seq<char>>, k: int, n: int)
    requires
        0 <= k < n <= ws.len(),
    ensures
        other_words_to(ws, k) <= other_words_to(ws, n),
        !is_date_operator(ws[k]) ==> other_words_to(ws, k) < other_words_to(ws, n),
    decreases n - k,
{
    if k + 1 < n {
        lemma_other_words_to(ws, k, n - 1);
    }
}

proof fn lemma_other_words(ws: Seq<Seq<char>>, n: int)
    requires
        0 <= n <= ws.len(),
    ensures
        without_date_operators(ws.take(n)).len() == other_words_to(ws, n),
        forall|k: int|
            0 <= k < n && !is_date_operator(#[trigger] ws[k]) ==> without_date_operators(
                ws.take(n),
            )[other_words_to(ws, k) as int] == ws[k],
    decreases n,
{
    if n > 0 {
        lemma_other_words(ws, n - 1);
        assert(ws.take(n).drop_last() =~= ws.take(n - 1));
        assert(ws.take(n).last() == ws[n - 1]);
        assert forall|k: int|
            0 <= k < n && !is_date_operator(#[trigger] ws[k]) implies without_date_operators(
            ws.take(n),
        )[other_words_to(ws, k) as int] == ws[k] by {
            if k < n - 1 {
                lemma_other_words_to(ws, k, n - 1);
            }
        }
    }
}

/// Every word of a query that is no date operator is sent, unchanged and in
/// order, and nothing else is.
pub proof fn law_other_words_are_sent(raw: Seq<char>)
    ensures
        words(sent_query(raw)).len() == other_words_to(words(raw), words(raw).len() as int),
        forall|k: int|
            0 <= k < words(raw).len() && !is_date_operator(#[trigger] words(raw)[k]) ==> words(
                sent_query(raw),
            )[other_words_to(words(raw), k) as int] == words(raw)[k],
{
    let ws = words(raw);
    lemma_words(raw);
    lemma_operators_dropped(ws);
    lemma_words_join(without_date_operators(ws));
    lemma_other_words(ws, ws.len() as int);
    assert(ws.take(ws.len() as int) =~= ws);
}

/// The first form has the query, the region and an empty offset, and the
/// window where there is one.
pub proof fn law_the_first_form_has_the_query(query: Seq<char>, recency: Option<Recency>)
    ensures
        ({
            let form = first_form(query, recency);
            &&& form[0] == ("q"@, sent_query(query))
            &&& form[1] == ("kl"@, "us-en"@)
            &&& form[2].0 == "b"@ && form[2].1.len() == 0
            &&& recency is None ==> form.len() == 3
            &&& recency matches Some(window) ==> form.len() == 4 && form[3] == (
                "df"@,
                recency_param(window),
            )
        }),
{
}

/// A posted form can be read back: between its ampersands stands one pair for
/// each field, in order, and around the equals sign of a pair the coded name
/// and the coded value.
pub proof fn law_forms_can_be_read_back(form: Seq<(Seq<char>, Seq<char>)>)
    requires
        form.len() > 0,
    ensures
        split(form_text(form), '&').len() == form.len(),
        forall|i: int|
            0 <= i < form.len() ==> pair_parts(#[trigger] split(form_text(form), '&')[i]) == Some(
                (form_encoded(form[i].0), form_encoded(form[i].1)),
            ),
    decreases form.len(),
{
    let fields = Seq::new(form.len(), |i: int| form_field(form[i]));
    let last = form.last();
    lemma_form_field(last);
    reveal_strlit("&");
    assert(fields.last() == form_field(last));
    if form.len() == 1 {
        reveal_with_fuel(join, 2);
        assert(form_text(form) =~= form_field(last));
        lemma_whole_piece(form_field(last), '&');
    } else {
        let front = form.drop_last();
        law_forms_can_be_read_back(front);
        let less = Seq::new(front.len(), |i: int| form_field(front[i]));
        assert(fields.drop_last() =~= less);
        assert("&"@ =~= seq!['&']);
        assert(form_text(form) =~= form_text(front) + seq!['&'] + form_field(last));
        law_splitting_goes_piece_by_piece(form_text(front), form_field(last), '&');
        lemma_whole_piece(form_field(last), '&');
        let pieces = split(form_text(form), '&');
        assert(pieces =~= split(form_text(front), '&') + seq![form_field(last)]);
        assert forall|i: int| 0 <= i < form.len() implies pair_parts(#[trigger] pieces[i]) == Some(
            (form_encoded(form[i].0), form_encoded(form[i].1)),
        ) by {
            if i < front.len() {
                assert(pieces[i] == split(form_text(front), '&')[i]);
                assert(front[i] == form[i]);
            }
        }
    }
}

proof fn lemma_form_field(field: (Seq<char>, Seq<char>))
    ensures
        !form_field(field).contains('&'),
        pair_parts(form_field(field)) == Some((form_encoded(field.0), form_encoded(field.1))),
{
    let name = form_encoded(field.0);
    let value = form_encoded(field.1);
    let all = form_field(field);
    reveal_strlit("=");
    lemma_encoded_fields_stay_apart(field.0);
    lemma_encoded_fields_stay_apart(field.1);
    assert forall|i: int| 0 <= i < all.len() implies all[i] != '&' by {
        if i < name.len() {
            assert(all[i] == name[i]);
        } else if i > name.len() {
            assert(all[i] == value[i - name.len() - 1]);
        }
    }
    assert forall|i: int| 0 <= i < name.len() implies all[i] != '=' by {
        assert(all[i] == name[i]);
    }
    lemma_find_is(all, '=', 0, name.len() as int);
    assert(all.take(name.len() as int) =~= name);
    assert(all.skip(name.len() as int + 1) =~= value);
}

/// The target of a wrapper is the value of its first pair of that name.
pub proof fn law_the_first_target_counts(pairs: Seq<Seq<char>>)
    ensures
        match wrapped_target(pairs) {
            Some(value) => exists|i: int|
                {
                    &&& 0 <= i < pairs.len()
                    &&& #[trigger] pairs[i] == "uddg="@ + value
                    &&& forall|j: int| 0 <= j < i ==> !"uddg="@.is_prefix_of(#[trigger] pairs[j])
                },
            None => forall|j: int|
                0 <= j < pairs.len() ==> !"uddg="@.is_prefix_of(#[trigger] pairs[j]),
        },
    decreases pairs.len(),
{
    if pairs.len() > 0 {
        let rest = pairs.drop_first();
        law_the_first_target_counts(rest);
        lemma_pair_name(pairs[0]);
        match wrapped_target(pairs) {
            Some(value) => {
                if "uddg="@.is_prefix_of(pairs[0]) {
                    assert(pairs[0] == "uddg="@ + value);
                } else {
                    let i = choose|i: int|
                        {
                            &&& 0 <= i < rest.len()
                            &&& #[trigger] rest[i] == "uddg="@ + value
                            &&& forall|j: int|
                                0 <= j < i ==> !"uddg="@.is_prefix_of(#[trigger] rest[j])
                        };
                    assert(pairs[i + 1] == rest[i]);
                    assert forall|j: int| 0 <= j < i + 1 implies !"uddg="@.is_prefix_of(
                        #[trigger] pairs[j],
                    ) by {
                        if j > 0 {
                            assert(pairs[j] == rest[j - 1]);
                        }
                    }
                }
            },
            None => {
                assert forall|j: int| 0 <= j < pairs.len() implies !"uddg="@.is_prefix_of(
                    #[trigger] pairs[j],
                ) by {
                    if j > 0 {
                        assert(pairs[j] == rest[j - 1]);
                    }
                }
            },
        }
    }
}

proof fn lemma_pair_name(pair: Seq<char>)
    ensures
        "uddg="@.is_prefix_of(pair) ==> (pair_parts(pair) matches Some((name, value)) && name
            == "uddg"@ && pair == "uddg="@ + value),
        (pair_parts(pair) matches Some((name, _)) && name == "uddg"@) ==> "uddg="@.is_prefix_of(
            pair,
        ),
{
    reveal_strlit("uddg=");
    reveal_strlit("uddg");
    if "uddg="@.is_prefix_of(pair) {
        assert forall|j: int| 0 <= j < 5 implies pair[j] == "uddg="@[j] by {
            assert(pair.subrange(0, 5)[j] == pair[j]);
        }
        lemma_find_is(pair, '=', 0, 4);
        assert(pair.take(4) =~= "uddg"@);
        assert(pair =~= "uddg="@ + pair.skip(5));
    }
    lemma_find_from(pair, seq!['='], 0);
    if let Some((name, value)) = pair_parts(pair) {
        if name == "uddg"@ {
            let at = find_from(pair, seq!['='], 0)->0;
            assert(pair.take(at).len() == at);
            assert("uddg"@.len() == 4);
            assert(pair.subrange(at, at + 1)[0] == pair[at]);
            assert(seq!['='][0] == '=');
            assert forall|j: int| 0 <= j < 4 implies pair[j] == "uddg"@[j] by {
                assert(pair.take(4)[j] == pair[j]);
            }
            assert(pair.subrange(0, 5) =~= "uddg="@);
        }
    }
}

/// A link leads to the coded target of its wrapper where it has one, gets its
/// scheme where it has none, and is kept where it is a web address; anything
/// else leads nowhere.
pub proof fn law_links_lead_to_their_targets(href: Seq<char>)
    ensures
        ({
            let t = trim(href);
            let wrapped = has_text(t, "duckduckgo.com/l/"@);
            &&& wrapped ==> (result_url(href) matches Some(url) ==> is_web_url(url) && (
            click_target(t) matches Some(coded) && url == utf8_lossy(form_bytes(coded))))
            &&& wrapped && (click_target(t) matches Some(coded) && is_web_url(
                utf8_lossy(form_bytes(coded)),
            )) ==> result_url(href) is Some
            &&& !wrapped && is_web_url(t) ==> result_url(href) == Some(t)
            &&& !wrapped && t.len() >= 2 && t[0] == '/' && t[1] == '/' ==> (result_url(
                href,
            ) matches Some(url) && url == "https:"@ + t)
            &&& !wrapped && !is_web_url(t) && !(t.len() >= 2 && t[0] == '/' && t[1] == '/')
                ==> result_url(href) is None
        }),
{
    let t = trim(href);
    reveal_strlit("//");
    reveal_strlit("https://");
    reveal_strlit("https:");
    reveal_strlit("http://");
    if t.len() >= 2 && t[0] == '/' && t[1] == '/' {
        assert(t.subrange(0, 2) =~= "//"@);
        assert("https://"@ + t.skip(2) =~= "https:"@ + t);
    } else if "//"@.is_prefix_of(t) {
        assert(t.subrange(0, 2)[0] == t[0]);
        assert(t.subrange(0, 2)[1] == t[1]);
    }
    if is_web_url(t) && "//"@.is_prefix_of(t) {
        assert(t.subrange(0, 2)[0] == t[0]);
        if "http://"@.is_prefix_of(t) {
            assert(t.subrange(0, 7)[0] == t[0]);
        } else {
            assert(t.subrange(0, 8)[0] == t[0]);
        }
    }
}

/// Only the two schemes are of the web.
pub proof fn law_web_addresses_are_told(rest: Seq<char>, s: Seq<char>)
    ensures
        is_web_url("http://"@ + rest),
        is_web_url("https://"@ + rest),
        s.len() < 7 ==> !is_web_url(s),
        s.len() > 0 && s[0] != 'h' ==> !is_web_url(s),
        !has_text(s, "://"@) ==> !is_web_url(s),
{
    reveal_strlit("http://");
    reveal_strlit("https://");
    reveal_strlit("://");
    assert(("http://"@ + rest).subrange(0, 7) =~= "http://"@);
    assert(("https://"@ + rest).subrange(0, 8) =~= "https://"@);
    if "http://"@.is_prefix_of(s) {
        assert(s.subrange(0, 7)[0] == s[0]);
        assert(s.subrange(4, 7) =~= s.subrange(0, 7).subrange(4, 7));
        assert(s.subrange(4, 7) =~= "://"@);
        assert(occurs_at(s, "://"@, 4));
    }
    if "https://"@.is_prefix_of(s) {
        assert(s.subrange(0, 8)[0] == s[0]);
        assert(s.subrange(5, 8) =~= s.subrange(0, 8).subrange(5, 8));
        assert(s.subrange(5, 8) =~= "://"@);
        assert(occurs_at(s, "://"@, 5));
    }
}

/// A date is read behind its marker: from the first place of the marker, in
/// whatever case, at most the next 320 bytes, without their tags and with
/// single blanks between the words. Where nothing is left there is no date.
pub proof fn law_dates_are_read_behind_their_marker(block: Seq<char>, marker: Seq<char>, at: int)
    ensures
        !has_text(ascii_lower(block), marker) ==> date_behind(block, marker) is None,
        occurs_at(ascii_lower(block), marker, at) && (forall|j: int|
            0 <= j < at ==> !occurs_at(ascii_lower(block), marker, j)) ==> exists|n: int|
            {
                let window = #[trigger] block.subrange(at, n);
                let text = collapse(entities_decoded(without_tags(window)));
                &&& at <= n <= block.len()
                &&& byte_len(window) <= 320
                &&& n < block.len() ==> byte_len(block.subrange(at, n + 1)) > 320
                &&& date_behind(block, marker) == if text.len() > 0 {
                    Some(text)
                } else {
                    None
                }
            },
{
    let lowered = ascii_lower(block);
    lemma_find_from(lowered, marker, 0);
    if occurs_at(lowered, marker, at) && (forall|j: int|
        0 <= j < at ==> !occurs_at(lowered, marker, j)) {
        match find_from(lowered, marker, 0) {
            Some(i) => {
                if i < at {
                    assert(!occurs_at(lowered, marker, i));
                }
                if at < i {
                    assert(!occurs_at(lowered, marker, at));
                }
            },
            None => {},
        }
        let tail = block.skip(at);
        let window = byte_prefix(tail, 320);
        law_byte_prefixes_are_the_longest(tail, 320);
        let n = at + window.len();
        assert(block.subrange(at, n) =~= window) by {
            assert(tail.take(window.len() as int) == window);
            assert(block.subrange(at, n) =~= tail.take(window.len() as int));
        }
        if n < block.len() {
            assert(block.subrange(at, n + 1) =~= tail.take(window.len() as int + 1));
        }
    }
}

/// The date of a block is that of the first marker that gives one: the age in
/// either spelling, then the publication, then the time.
pub proof fn law_the_first_date_counts(block: Seq<char>)
    ensures
        ({
            let age = date_behind(block, "result__age"@);
            let other_age = date_behind(block, "result-age"@);
            let published = date_behind(block, "published"@);
            let time = date_behind(block, "datetime"@);
            &&& age is Some ==> date_in(block) == age
            &&& age is None && other_age is Some ==> date_in(block) == other_age
            &&& age is None && other_age is None && published is Some ==> date_in(block)
                == published
            &&& age is None && other_age is None && published is None ==> date_in(block) == time
        }),
{
}

/// A block with a link that has a title and leads to the web is a hit with
/// that title and address, the snippet and date of the block, the query and
/// the rank; any other block is none. `href` and `text` are the address and the
/// text of the link, whose class stands before the address or behind it.
pub proof fn law_blocks_are_read(
    title: Option<Seq<Option<Seq<char>>>>,
    snippet: Option<Seq<Option<Seq<char>>>>,
    block: Seq<char>,
    query: Seq<char>,
    rank: nat,
    href: Seq<char>,
    text: Seq<char>,
)
    ensures
        title is None ==> block_hit(title, snippet, block, query, rank) is None,
        (title matches Some(groups) && {
            ||| groups.len() > 2 && groups[1] == Some(href) && groups[2] == Some(text)
            ||| groups.len() > 4 && groups[1] is None && groups[3] == Some(href) && groups[4]
                == Some(text)
        }) ==> {
            let hit = block_hit(title, snippet, block, query, rank);
            &&& hit is Some <==> html_text(text).len() > 0 && result_url(href) is Some
            &&& hit matches Some(h) ==> {
                &&& h.title == html_text(text)
                &&& Some(h.url) == result_url(href)
                &&& h.provider == SearchProvider::DuckDuckGo
                &&& h.query == query
                &&& h.rank == rank
                &&& h.published_date == date_in(block)
                &&& snippet is None ==> h.snippet.len() == 0
                &&& snippet matches Some(found) ==> (found.len() > 1 && found[1] is Some
                    ==> h.snippet == html_text(found[1]->0))
            }
        },
{
}

/// Whether the block that begins at the `i`th start is a hit.
pub open spec fn is_hit_block(html: Seq<char>, query: Seq<char>, starts: Seq<usize>, i: int) -> bool {
    let block = page_block(html, starts, i);
    block_hit(
        regex_first(TITLE_PATTERN@, block),
        regex_first(SNIPPET_PATTERN@, block),
        block,
        query,
        0,
    ) is Some
}

/// How many of the first `n` blocks are hits.
pub open spec fn hit_blocks_to(
    html: Seq<char>,
    query: Seq<char>,
    starts: Seq<usize>,
    n: int,
) -> nat
    decreases n,
{
    if n <= 0 {
        0
    } else {
        hit_blocks_to(html, query, starts, n - 1) + if is_hit_block(html, query, starts, n - 1) {
            1nat
        } else {
            0nat
        }
    }
}

proof fn lemma_hit_blocks_to(
    html: Seq<char>,
    query: Seq<char>,
    starts: Seq<usize>,
    k: int,
    n: int,
)
    requires
        0 <= k < n,
    ensures
        hit_blocks_to(html, query, starts, k) <= hit_blocks_to(html, query, starts, n),
        is_hit_block(html, query, starts, k) ==> hit_blocks_to(html, query, starts, k)
            < hit_blocks_to(html, query, starts, n),
    decreases n - k,
{
    if k + 1 < n {
        lemma_hit_blocks_to(html, query, starts, k, n - 1);
    }
}

/// Every block that is a hit is one of the page's hits, in the order of the
/// blocks and with its place as rank, and there are no others.
pub proof fn law_hits_are_the_blocks_of_the_page(
    html: Seq<char>,
    query: Seq<char>,
    starts: Seq<usize>,
    n: nat,
)
    ensures
        page_hits(html, query, starts, n).len() == hit_blocks_to(html, query, starts, n as int),
        forall|i: int|
            0 <= i < n && #[trigger] is_hit_block(html, query, starts, i) ==> {
                let block = page_block(html, starts, i);
                let rank = hit_blocks_to(html, query, starts, i);
                Some(page_hits(html, query, starts, n)[rank as int]) == block_hit(
                    regex_first(TITLE_PATTERN@, block),
                    regex_first(SNIPPET_PATTERN@, block),
                    block,
                    query,
                    rank,
                )
            },
    decreases n,
{
    if n > 0 {
        let m = (n - 1) as nat;
        law_hits_are_the_blocks_of_the_page(html, query, starts, m);
        assert forall|i: int|
            0 <= i < n && #[trigger] is_hit_block(html, query, starts, i) implies {
            let block = page_block(html, starts, i);
            let rank = hit_blocks_to(html, query, starts, i);
            Some(page_hits(html, query, starts, n)[rank as int]) == block_hit(
                regex_first(TITLE_PATTERN@, block),
                regex_first(SNIPPET_PATTERN@, block),
                block,
                query,
                rank,
            )
        } by {
            if i < m {
                lemma_hit_blocks_to(html, query, starts, i, m as int);
            }
        }
    }
}

/// Blocks end where the next begins, and the last with the page.
pub proof fn law_blocks_follow_each_other(html: Seq<char>, starts: Seq<usize>, i: int)
    requires
        0 <= i < starts.len(),
    ensures
        i + 1 < starts.len() ==> page_block(html, starts, i) == byte_range(
            html,
            starts[i] as int,
            starts[i + 1] as int,
        ),
        i + 1 == starts.len() ==> page_block(html, starts, i) == byte_range(
            html,
            starts[i] as int,
            byte_len(html) as int,
        ),
{
}

/// An input has its name and its value, in whichever order they stand, with
/// the named characters in them.
pub proof fn law_inputs_have_name_and_value(
    groups: Seq<Option<Seq<char>>>,
    name: Seq<char>,
    value: Seq<char>,
)
    requires
        groups.len() == 5,
    ensures
        groups[1] == Some(name) && groups[2] == Some(value) ==> input_field(groups) == Some(
            (entities_replaced(name), entities_replaced(value)),
        ),
        groups[1] is None && groups[4] == Some(name) && groups[3] == Some(value) ==> input_field(
            groups,
        ) == Some((entities_replaced(name), entities_replaced(value))),
        groups[1] is None && groups[4] is None ==> input_field(groups) is None,
{
}

/// The fields of a form go input by input: those of two runs of inputs are
/// those of the one and then those of the other, and one input has its own
/// field or none.
pub proof fn law_fields_go_input_by_input(
    a: Seq<Seq<Option<Seq<char>>>>,
    b: Seq<Seq<Option<Seq<char>>>>,
    input: Seq<Option<Seq<char>>>,
)
    ensures
        input_fields(a + b) == input_fields(a) + input_fields(b),
        input_field(input) matches Some(field) ==> input_fields(seq![input]) == seq![field],
        input_field(input) is None ==> input_fields(seq![input]).len() == 0,
    decreases b.len(),
{
    reveal_with_fuel(input_fields, 2);
    assert(seq![input].drop_last() =~= Seq::empty());
    assert(seq![input].last() == input);
    if let Some(field) = input_field(input) {
        assert(input_fields(seq![input]) =~= seq![field]);
    }
    if b.len() > 0 {
        law_fields_go_input_by_input(a, b.drop_last(), input);
        assert((a + b).drop_last() =~= a + b.drop_last());
        assert((a + b).last() == b.last());
        assert(input_fields(a + b) =~= input_fields(a) + input_fields(b));
    } else {
        assert(a + b =~= a);
        assert(input_fields(a + b) =~= input_fields(a) + input_fields(b));
    }
}

/// A form leads on exactly where it has an offset and a token that say
/// something.
pub proof fn law_forms_that_lead_on(form: Seq<(Seq<char>, Seq<char>)>, i: int, j: int)
    ensures
        0 <= i < form.len() && form[i].0 == "s"@ && form[i].1.len() > 0 && 0 <= j < form.len()
            && form[j].0 == "vqd"@ && form[j].1.len() > 0 ==> continues(form),
        (forall|k: int| 0 <= k < form.len() ==> (#[trigger] form[k]).0 != "s"@ || form[k].1.len() == 0)
            ==> !continues(form),
        (forall|k: int|
            0 <= k < form.len() ==> (#[trigger] form[k]).0 != "vqd"@ || form[k].1.len() == 0)
            ==> !continues(form),
{
}

/// The next form is the first on the page that leads on.
pub proof fn law_the_first_form_that_leads_on_is_next(contents: Seq<Seq<Option<Seq<char>>>>)
    ensures
        match next_form(contents) {
            Some(form) => exists|i: int|
                {
                    &&& 0 <= i < contents.len()
                    &&& is_form_of(#[trigger] contents[i], form)
                    &&& continues(form)
                    &&& forall|j: int| 0 <= j < i ==> !leads_on(#[trigger] contents[j])
                },
            None => forall|j: int| 0 <= j < contents.len() ==> !leads_on(#[trigger] contents[j]),
        },
    decreases contents.len(),
{
    if contents.len() > 0 {
        let rest = contents.drop_first();
        law_the_first_form_that_leads_on_is_next(rest);
        match next_form(contents) {
            Some(form) => {
                if leads_on(contents[0]) {
                    assert(is_form_of(contents[0], form));
                } else {
                    let i = choose|i: int|
                        {
                            &&& 0 <= i < rest.len()
                            &&& is_form_of(#[trigger] rest[i], form)
                            &&& continues(form)
                            &&& forall|j: int| 0 <= j < i ==> !leads_on(#[trigger] rest[j])
                        };
                    assert(contents[i + 1] == rest[i]);
                    assert forall|j: int| 0 <= j < i + 1 implies !leads_on(
                        #[trigger] contents[j],
                    ) by {
                        if j > 0 {
                            assert(contents[j] == rest[j - 1]);
                        }
                    }
                }
            },
            None => {
                assert forall|j: int| 0 <= j < contents.len() implies !leads_on(
                    #[trigger] contents[j],
                ) by {
                    if j > 0 {
                        assert(contents[j] == rest[j - 1]);
                    }
                }
            },
        }
    }
}

/// Whether the fields are those of the inputs inside a form.
pub open spec fn is_form_of(
    groups: Seq<Option<Seq<char>>>,
    form: Seq<(Seq<char>, Seq<char>)>,
) -> bool {
    groups.len() > 1 && groups[1] is Some && form == input_fields(
        regex_all(INPUT_PATTERN@, groups[1]->0),
    )
}

/// Whether the text inside a form is that of one that leads on.
pub open spec fn leads_on(groups: Seq<Option<Seq<char>>>) -> bool {
    groups.len() > 1 && groups[1] is Some && continues(
        input_fields(regex_all(INPUT_PATTERN@, groups[1]->0)),
    )
}

/// Whether the `k`th hit of a page leads somewhere new: no row has its
/// address, nor has a hit before it.
pub open spec fn is_new_hit(rows: Seq<Hit>, page: Seq<Hit>, k: int) -> bool {
    &&& forall|i: int| 0 <= i < rows.len() ==> (#[trigger] rows[i]).url != page[k].url
    &&& forall|i: int| 0 <= i < k ==> (#[trigger] page[i]).url != page[k].url
}

/// How many of the first `n` hits of a page lead somewhere new.
pub open spec fn new_hits_to(rows: Seq<Hit>, page: Seq<Hit>, n: int) -> nat
    decreases n,
{
    if n <= 0 {
        0
    } else {
        new_hits_to(rows, page, n - 1) + if is_new_hit(rows, page, n - 1) {
            1nat
        } else {
            0nat
        }
    }
}

proof fn lemma_new_hits_to(rows: Seq<Hit>, page: Seq<Hit>, k: int, n: int)
    requires
        0 <= k < n,
    ensures
        new_hits_to(rows, page, k) <= new_hits_to(rows, page, n),
        is_new_hit(rows, page, k) ==> new_hits_to(rows, page, k) < new_hits_to(rows, page, n),
    decreases n - k,
{
    if k + 1 < n {
        lemma_new_hits_to(rows, page, k, n - 1);
    }
}

/// Whether a row is a hit of a page, at another rank.
pub open spec fn is_same_hit(row: Hit, hit: Hit) -> bool {
    &&& row.title == hit.title
    &&& row.url == hit.url
    &&& row.snippet == hit.snippet
    &&& row.provider == hit.provider
    &&& row.query == hit.query
    &&& row.published_date == hit.published_date
}

proof fn lemma_absorbed_urls(rows: Seq<Hit>, page: Seq<Hit>, url: Seq<char>)
    ensures
        has_url(absorbed(rows, page), url) ==> has_url(rows, url) || has_url(page, url),
        absorbed(rows, page).len() < 20 ==> (has_url(rows, url) || has_url(page, url) ==> has_url(
            absorbed(rows, page),
            url,
        )),
        absorbed(rows, page).len() >= rows.len(),
    decreases page.len(),
{
    if page.len() > 0 {
        let front = page.drop_last();
        let before = absorbed(rows, front);
        let after = absorbed(rows, page);
        lemma_absorbed_urls(rows, front, url);
        if has_url(front, url) {
            let i = choose|i: int| 0 <= i < front.len() && (#[trigger] front[i]).url == url;
            assert(page[i].url == url);
        }
        if has_url(page, url) && !has_url(front, url) {
            let i = choose|i: int| 0 <= i < page.len() && (#[trigger] page[i]).url == url;
            if i < front.len() {
                assert(front[i].url == url);
            }
            assert(page.last().url == url);
        }
        if has_url(before, url) {
            let i = choose|i: int| 0 <= i < before.len() && (#[trigger] before[i]).url == url;
            assert(after[i].url == url);
        }
        if has_url(after, url) && !has_url(before, url) {
            let i = choose|i: int| 0 <= i < after.len() && (#[trigger] after[i]).url == url;
            if i < before.len() {
                assert(before[i].url == url);
            }
            assert(page[page.len() - 1].url == url);
        }
        if page.last().url == url && after.len() < 20 && !has_url(before, url) {
            assert(after[before.len() as int].url == url);
        }
    }
}

proof fn lemma_new_hit(rows: Seq<Hit>, page: Seq<Hit>, k: int)
    requires
        0 <= k < page.len(),
        absorbed(rows, page.take(k)).len() < 20,
    ensures
        is_new_hit(rows, page, k) <==> !has_url(absorbed(rows, page.take(k)), page[k].url),
{
    let front = page.take(k);
    let url = page[k].url;
    lemma_absorbed_urls(rows, front, url);
    if has_url(front, url) {
        let i = choose|i: int| 0 <= i < front.len() && (#[trigger] front[i]).url == url;
        assert(page[i].url == url);
    } else {
        assert forall|i: int| 0 <= i < k implies (#[trigger] page[i]).url != url by {
            assert(front[i] == page[i]);
        }
    }
}

/// Where the rows and the new hits of a page stand among the rows after it.
spec fn new_hits_stand(rows: Seq<Hit>, page: Seq<Hit>, n: int, all: Seq<Hit>) -> bool {
    &&& forall|i: int| 0 <= i < rows.len() ==> #[trigger] all[i] == rows[i]
    &&& forall|k: int|
        0 <= k < n && #[trigger] is_new_hit(rows, page, k) && rows.len() + new_hits_to(
            rows,
            page,
            k,
        ) < 20 ==> {
            let at = rows.len() + new_hits_to(rows, page, k);
            is_same_hit(all[at as int], page[k]) && all[at as int].rank == at
        }
}

proof fn lemma_new_hits_stay(rows: Seq<Hit>, page: Seq<Hit>, n: int, all: Seq<Hit>, row: Hit)
    requires
        0 <= n < page.len(),
        new_hits_stand(rows, page, n, all),
        all.len() == if rows.len() + new_hits_to(rows, page, n) <= 20 {
            rows.len() + new_hits_to(rows, page, n)
        } else {
            20
        },
        rows.len() <= 20,
    ensures
        !is_new_hit(rows, page, n) || all.len() >= 20 ==> new_hits_stand(rows, page, n + 1, all),
        all.len() < 20 && is_same_hit(row, page[n]) && row.rank == all.len() ==> new_hits_stand(
            rows,
            page,
            n + 1,
            all.push(row),
        ),
{
    if all.len() < 20 && is_same_hit(row, page[n]) && row.rank == all.len() {
        let after = all.push(row);
        assert forall|i: int| 0 <= i < rows.len() implies #[trigger] after[i] == rows[i] by {
            assert(after[i] == all[i]);
        }
        assert forall|k: int|
            0 <= k < n + 1 && #[trigger] is_new_hit(rows, page, k) && rows.len() + new_hits_to(
                rows,
                page,
                k,
            ) < 20 implies {
            let at = rows.len() + new_hits_to(rows, page, k);
            is_same_hit(after[at as int], page[k]) && after[at as int].rank == at
        } by {
            if k < n {
                lemma_new_hits_to(rows, page, k, n);
                let at = rows.len() + new_hits_to(rows, page, k);
                assert(after[at as int] == all[at as int]);
            }
        }
    }
}

proof fn lemma_new_hits(rows: Seq<Hit>, page: Seq<Hit>, n: int)
    requires
        rows.len() <= 20,
        0 <= n <= page.len(),
    ensures
        absorbed(rows, page.take(n)).len() == if rows.len() + new_hits_to(rows, page, n) <= 20 {
            rows.len() + new_hits_to(rows, page, n)
        } else {
            20
        },
        new_hits_stand(rows, page, n, absorbed(rows, page.take(n))),
    decreases n,
{
    if n > 0 {
        lemma_new_hits(rows, page, n - 1);
        let here = page.take(n);
        assert(here.drop_last() =~= page.take(n - 1));
        assert(here.last() == page[n - 1]);
        let before = absorbed(rows, page.take(n - 1));
        let row = at_rank(page[n - 1], before.len());
        if before.len() < 20 {
            lemma_new_hit(rows, page, n - 1);
        }
        lemma_new_hits_stay(rows, page, n - 1, before, row);
    }
}

/// A page adds to the rows the hits that lead somewhere new, in order and
/// unchanged but for the rank, until there are twenty; the rows stay as they
/// are, and nothing else is added.
pub proof fn law_pages_add_their_new_hits(rows: Seq<Hit>, page: Seq<Hit>)
    requires
        rows.len() <= 20,
    ensures
        ({
            let all = absorbed(rows, page);
            let count = new_hits_to(rows, page, page.len() as int);
            &&& all.len() == if rows.len() + count <= 20 {
                rows.len() + count
            } else {
                20
            }
            &&& forall|i: int| 0 <= i < rows.len() ==> #[trigger] all[i] == rows[i]
            &&& forall|k: int|
                0 <= k < page.len() && #[trigger] is_new_hit(rows, page, k) && rows.len()
                    + new_hits_to(rows, page, k) < 20 ==> {
                    let at = rows.len() + new_hits_to(rows, page, k);
                    is_same_hit(all[at as int], page[k]) && all[at as int].rank == at
                }
        }),
{
    lemma_new_hits(rows, page, page.len() as int);
    assert(page.take(page.len() as int) =~= page);
}

/// The value of a field is that of the first field of its name.
pub proof fn law_the_first_field_counts(form: Seq<(Seq<char>, Seq<char>)>, name: Seq<char>, i: int)
    ensures
        0 <= i < form.len() && form[i].0 == name && (forall|j: int|
            0 <= j < i ==> (#[trigger] form[j]).0 != name) ==> field_value(form, name) == Some(
            form[i].1,
        ),
        (forall|j: int| 0 <= j < form.len() ==> (#[trigger] form[j]).0 != name) ==> field_value(
            form,
            name,
        ) is None,
    decreases form.len(),
{
    if form.len() > 0 {
        let rest = form.drop_first();
        law_the_first_field_counts(rest, name, i - 1);
        assert(forall|j: int| 0 <= j < rest.len() ==> rest[j] == #[trigger] form[j + 1]);
        if 0 < i < form.len() && form[i].0 == name && (forall|j: int|
            0 <= j < i ==> (#[trigger] form[j]).0 != name) {
            assert(form[0].0 != name);
            assert(rest[i - 1] == form[i]);
            assert forall|j: int| 0 <= j < i - 1 implies (#[trigger] rest[j]).0 != name by {
                assert(rest[j] == form[j + 1]);
            }
        }
        if forall|j: int| 0 <= j < form.len() ==> (#[trigger] form[j]).0 != name {
            assert(form[0].0 != name);
            assert forall|j: int| 0 <= j < rest.len() implies (#[trigger] rest[j]).0 != name by {
                assert(rest[j] == form[j + 1]);
            }
        }
    }
}

/// A leg goes on with the next form exactly while there is one, the page was
/// good, fewer than twenty rows are known and the offset moved. It keeps its
/// query, and its rows are those of all its pages. A failed page ends it with
/// that failure.
pub proof fn law_legs_go_on_while_there_is_more(
    leg: DdgLegView,
    page: Result<Seq<Hit>, Failure>,
    next: Option<Seq<(Seq<char>, Seq<char>)>>,
)
    ensures
        page matches Err(e) ==> ddg_step(leg, page, next) == DdgStepView::Done(Err(e)),
        page matches Ok(hits) ==> {
            let rows = absorbed(leg.rows, hits);
            let stays = next matches Some(form) && field_value(form, "s"@) is Some && field_value(
                form,
                "s"@,
            ) == leg.last_s;
            &&& ddg_step(leg, page, next) is Post <==> next is Some && rows.len() < 20 && !stays
            &&& ddg_step(leg, page, next) matches DdgStepView::Post(after) ==> {
                &&& after.query == leg.query
                &&& after.rows == rows
                &&& Some(after.form) == next
                &&& after.last_s == field_value(after.form, "s"@)
            }
            &&& ddg_step(leg, page, next) matches DdgStepView::Done(outcome) ==> outcome == Ok::<
                Seq<Hit>,
                Failure,
            >(rows)
        },
{
}

} // verus!
