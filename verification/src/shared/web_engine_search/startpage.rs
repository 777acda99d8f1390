//! The Startpage leg.
//!
//! The homepage gives a form with a token, which is posted with the query;
//! where it gives none, the search page is asked directly. Pages are read
//! from their parsed tree.

use vstd::prelude::*;
use crate::foreign::{ancestor_classes, mark_nodes, parse_url, select_subtrees, ClassNames, Subtree};
use crate::shared::types::search::{Recency, SearchProvider, SearchProviderError, SearchResult,
    MAX_NUM_RESULTS};
use crate::shared::web_engine_search::ddg::{field_filled, web_url};
use crate::shared::web_engine_search::decode::collapse_whitespace;
use crate::text::{ascii_lowered, contains_text, decimal_text, finishes_with, index_in, same_text,
    trimmed};
#[allow(unused_imports)]
use crate::foreign::{dom_ancestor_classes, dom_marks, dom_subtrees, lowercase, parsed_url, NodeView};
#[allow(unused_imports)]
use crate::shared::types::search::{recency_param, Failure, Hit};
#[allow(unused_imports)]
use crate::shared::web_engine_search::ddg::{has_field, is_web_url, rows_view};
#[allow(unused_imports)]
use crate::text::{ascii_lower, collapse, decimal, has_text, lemma_first_index, lemma_has_middle,
    lemma_views_empty, lemma_views_push, opt_view, trim, views};

verus! {

/// The homepage, which carries the token.
pub const STARTPAGE_HOME_URL: &'static str = "https://www.startpage.com/";

/// Where a search is posted.
pub const STARTPAGE_SEARCH_URL: &'static str = "https://www.startpage.com/sp/search";

/// Whether an answer is the captcha wall: it was redirected to an error or
/// captcha page, or carries the captcha page's marker. The bare word is no
/// sign of it.
pub open spec fn captcha(body: Seq<char>, final_url: Seq<char>) -> bool {
    ||| has_text(final_url, "/en/errors/"@)
    ||| has_text(final_url, "/sp/captcha"@)
    ||| has_text(body, "component---src-pages-captcha"@)
}

/// Whether an answer is the captcha wall.
pub fn is_startpage_challenge(body: &str, final_url: &str) -> (r: bool)
    ensures
        r == captcha(body@, final_url@),
{
    contains_text(final_url, "/en/errors/") || contains_text(final_url, "/sp/captcha")
        || contains_text(body, "component---src-pages-captcha")
}

/// Whether a lowercase host is the engine's own.
pub open spec fn is_own_host(host: Seq<char>) -> bool {
    host == "startpage.com"@ || ".startpage.com"@.is_suffix_of(host)
}

/// Whether a lowercase host is the engine's own.
pub fn own_host(host: &str) -> (r: bool)
    ensures
        r == is_own_host(host@),
{
    same_text(host, "startpage.com") || finishes_with(host, ".startpage.com")
}

/// The link of a result, if it leads out of the engine to the web.
pub open spec fn exit_url(href: Seq<char>) -> Option<Seq<char>> {
    let t = trim(href);
    if !is_web_url(t) {
        None
    } else {
        match parsed_url(t) {
            None => None,
            Some(url) => {
                let host = match url.host {
                    Some(host) => host,
                    None => Seq::empty(),
                };
                if is_own_host(lowercase(host)) {
                    None
                } else {
                    Some(t)
                }
            },
        }
    }
}

/// Keeps only absolute web URLs outside the engine.
pub fn sanitize_startpage_url(href: &str) -> (r: Option<String>)
    ensures
        opt_view(r) == exit_url(href@),
{
    let text = trimmed(href);
    if !web_url(text.as_str()) {
        return None;
    }
    let parsed = match parse_url(text.as_str()) {
        Some(parsed) => parsed,
        None => {
            return None;
        },
    };
    let host = match parsed.host {
        Some(host) => host,
        None => String::new(),
    };
    assert(host@ == match parsed_url(text@)->0.host {
        Some(host) => host,
        None => Seq::empty(),
    });
    let lower = host.as_str().to_lowercase();
    if own_host(lower.as_str()) {
        None
    } else {
        Some(text)
    }
}

/// Where the subtree of node `k` ends: the next node that stands no deeper.
pub open spec fn subtree_end(nodes: Seq<NodeView>, k: int, from: int) -> int
    decreases nodes.len() - from,
{
    if from >= nodes.len() {
        nodes.len() as int
    } else if nodes[from].depth <= nodes[k].depth {
        from
    } else {
        subtree_end(nodes, k, from + 1)
    }
}

/// The first marked place from `from` to before `to`.
pub open spec fn first_marked(marks: Seq<bool>, from: int, to: int) -> Option<int>
    decreases to - from,
{
    if from >= to {
        None
    } else if 0 <= from < marks.len() && marks[from] {
        Some(from)
    } else {
        first_marked(marks, from + 1, to)
    }
}

/// The text of the nodes from `from` to before `to`.
pub open spec fn text_in(nodes: Seq<NodeView>, from: int, to: int) -> Seq<char>
    decreases to - from,
{
    if from >= to {
        Seq::empty()
    } else {
        let before = text_in(nodes, from, to - 1);
        match nodes[to - 1].text {
            Some(t) => before + t,
            None => before,
        }
    }
}

/// The text below node `k`, white space folded.
pub open spec fn element_text(nodes: Seq<NodeView>, k: int) -> Seq<char> {
    collapse(text_in(nodes, k, subtree_end(nodes, k, k + 1)))
}

/// An attribute of a node, by its place among those that were asked for.
pub open spec fn attr_at(node: NodeView, i: int) -> Option<Seq<char>> {
    if 0 <= i < node.attrs.len() {
        node.attrs[i]
    } else {
        None
    }
}

/// What is read of a result page: for each row its ancestors' classes, its
/// nodes, and which of them are links, titles, fallback titles and snippets.
#[derive(Debug)]
pub struct ResultPage {
    pub classes: Vec<ClassNames>,
    pub rows: Vec<Subtree>,
    pub links: Vec<Vec<bool>>,
    pub titles: Vec<Vec<bool>>,
    pub headings: Vec<Vec<bool>>,
    pub snippets: Vec<Vec<bool>>,
}

/// What a result page says.
#[verifier::ext_equal]
pub struct PageView {
    pub classes: Seq<Seq<Seq<char>>>,
    pub rows: Seq<Seq<NodeView>>,
    pub links: Seq<Seq<bool>>,
    pub titles: Seq<Seq<bool>>,
    pub headings: Seq<Seq<bool>>,
    pub snippets: Seq<Seq<bool>>,
}

impl View for ResultPage {
    type V = PageView;

    open spec fn view(&self) -> PageView {
        PageView {
            classes: views(self.classes@),
            rows: views(self.rows@),
            links: views(self.links@),
            titles: views(self.titles@),
            headings: views(self.headings@),
            snippets: views(self.snippets@),
        }
    }
}

/// The marks of one row.
pub open spec fn row_marks(marks: Seq<Seq<bool>>, i: int) -> Seq<bool> {
    if 0 <= i < marks.len() {
        marks[i]
    } else {
        Seq::empty()
    }
}

/// The classes that mark a honeypot, which no reader sees.
pub open spec fn is_honeypot(classes: Seq<Seq<char>>) -> bool {
    exists|i: int|
        0 <= i < classes.len() && ascii_lower(#[trigger] classes[i]) == "a-bg-result"@
}

impl PageView {
    /// Whether row `i` stands inside a honeypot.
    pub open spec fn hidden(self, i: int) -> bool {
        0 <= i < self.classes.len() && is_honeypot(self.classes[i])
    }

    /// The place of the link of row `i`.
    pub open spec fn link(self, i: int) -> Option<int> {
        first_marked(row_marks(self.links, i), 1, self.rows[i].len() as int)
    }

    /// The URL of row `i`.
    pub open spec fn url(self, i: int) -> Option<Seq<char>> {
        match self.link(i) {
            Some(k) => exit_url(
                match attr_at(self.rows[i][k], 0) {
                    Some(href) => href,
                    None => Seq::empty(),
                },
            ),
            None => None,
        }
    }

    /// The title of row `i`: that of the title element inside the link, else
    /// of the first heading there.
    pub open spec fn title(self, i: int) -> Seq<char> {
        match self.link(i) {
            Some(k) => {
                let nodes = self.rows[i];
                let end = subtree_end(nodes, k, k + 1);
                match first_marked(row_marks(self.titles, i), k + 1, end) {
                    Some(t) => element_text(nodes, t),
                    None => match first_marked(row_marks(self.headings, i), k + 1, end) {
                        Some(t) => element_text(nodes, t),
                        None => Seq::empty(),
                    },
                }
            },
            None => Seq::empty(),
        }
    }

    /// The snippet of row `i`.
    pub open spec fn snippet(self, i: int) -> Seq<char> {
        let nodes = self.rows[i];
        match first_marked(row_marks(self.snippets, i), 1, nodes.len() as int) {
            Some(k) => element_text(nodes, k),
            None => Seq::empty(),
        }
    }

    /// The URLs that the first `n` rows gave, each once, whether or not they
    /// became hits.
    pub open spec fn seen(self, n: nat) -> Seq<Seq<char>>
        decreases n,
    {
        if n == 0 {
            Seq::empty()
        } else {
            let before = self.seen((n - 1) as nat);
            match self.url(n - 1) {
                Some(url) => if self.hidden(n - 1) || before.contains(url) {
                    before
                } else {
                    before.push(url)
                },
                None => before,
            }
        }
    }

    /// The hits of the first `n` rows, at most `MAX_NUM_RESULTS`. A row in a
    /// honeypot, without a URL, with a URL that came before or without a
    /// title gives none. Ranks are positions.
    pub open spec fn hits(self, query: Seq<char>, n: nat) -> Seq<Hit>
        decreases n,
    {
        if n == 0 {
            Seq::empty()
        } else {
            let before = self.hits(query, (n - 1) as nat);
            let i = n - 1;
            match self.url(i) {
                Some(url) => if self.hidden(i) || self.seen((n - 1) as nat).contains(url)
                    || self.title(i).len() == 0 || before.len() >= MAX_NUM_RESULTS {
                    before
                } else {
                    before.push(
                        Hit {
                            title: self.title(i),
                            url,
                            snippet: self.snippet(i),
                            provider: SearchProvider::Startpage,
                            query,
                            rank: before.len(),
                            published_date: None,
                        },
                    )
                },
                None => before,
            }
        }
    }
}

fn end_of_subtree(nodes: &Subtree, k: usize) -> (r: usize)
    requires
        k < nodes@.len(),
    ensures
        r == subtree_end(nodes@, k as int, k + 1),
        k < r <= nodes@.len(),
{
    let n: usize = nodes.nodes.len();
    let mut i: usize = k + 1;
    while i < n
        invariant
            n == nodes@.len(),
            n == nodes.nodes@.len(),
            k < i <= n,
            subtree_end(nodes@, k as int, k + 1) == subtree_end(nodes@, k as int, i as int),
        decreases n - i,
    {
        if nodes.nodes[i].depth <= nodes.nodes[k].depth {
            return i;
        }
        i += 1;
    }
    i
}

fn marked_from(marks: &Vec<bool>, from: usize, to: usize) -> (r: Option<usize>)
    ensures
        match r {
            Some(k) => first_marked(marks@, from as int, to as int) == Some(k as int) && from <= k
                < to,
            None => first_marked(marks@, from as int, to as int) is None,
        },
{
    let mut i: usize = from;
    while i < to
        invariant
            from <= i,
            from <= to ==> i <= to,
            first_marked(marks@, from as int, to as int) == first_marked(
                marks@,
                i as int,
                to as int,
            ),
        decreases to - i,
    {
        if i < marks.len() && marks[i] {
            return Some(i);
        }
        i += 1;
    }
    None
}

fn text_of_nodes(nodes: &Subtree, from: usize, to: usize) -> (r: String)
    requires
        from <= to <= nodes@.len(),
    ensures
        r@ == text_in(nodes@, from as int, to as int),
{
    let mut out = String::new();
    let mut i: usize = from;
    while i < to
        invariant
            from <= i <= to <= nodes@.len(),
            nodes@.len() == nodes.nodes@.len(),
            out@ == text_in(nodes@, from as int, i as int),
        decreases to - i,
    {
        assert(nodes@[i as int] == nodes.nodes@[i as int]@);
        match &nodes.nodes[i].text {
            Some(t) => {
                out.append(t.as_str());
            },
            None => {},
        }
        i += 1;
    }
    out
}

fn text_of_element(nodes: &Subtree, k: usize) -> (r: String)
    requires
        k < nodes@.len(),
    ensures
        r@ == element_text(nodes@, k as int),
{
    let end: usize = end_of_subtree(nodes, k);
    let text = text_of_nodes(nodes, k, end);
    collapse_whitespace(text.as_str())
}

fn attr_of(nodes: &Subtree, k: usize, i: usize) -> (r: Option<String>)
    requires
        k < nodes@.len(),
    ensures
        opt_view(r) == attr_at(nodes@[k as int], i as int),
{
    assert(nodes@[k as int] == nodes.nodes@[k as int]@);
    if i < nodes.nodes[k].attrs.len() {
        match &nodes.nodes[k].attrs[i] {
            Some(v) => Some(v.clone()),
            None => None,
        }
    } else {
        None
    }
}

fn in_honeypot(classes: &ClassNames) -> (r: bool)
    ensures
        r == is_honeypot(classes@),
{
    let mut i: usize = 0;
    while i < classes.names.len()
        invariant
            i <= classes.names@.len(),
            classes@.len() == classes.names@.len(),
            forall|k: int|
                0 <= k < i ==> ascii_lower(#[trigger] classes@[k]) != "a-bg-result"@,
        decreases classes.names@.len() - i,
    {
        assert(classes@[i as int] == classes.names@[i as int]@);
        let lower = ascii_lowered(classes.names[i].as_str());
        if same_text(lower.as_str(), "a-bg-result") {
            return true;
        }
        i += 1;
    }
    false
}

fn marks_of_row(marks: &Vec<Vec<bool>>, i: usize, from: usize, to: usize) -> (r: Option<usize>)
    ensures
        match r {
            Some(k) => first_marked(
                row_marks(views(marks@), i as int),
                from as int,
                to as int,
            ) == Some(k as int) && from <= k < to,
            None => first_marked(
                row_marks(views(marks@), i as int),
                from as int,
                to as int,
            ) is None,
        },
{
    if i < marks.len() {
        assert(views(marks@)[i as int] == marks@[i as int]@);
        marked_from(&marks[i], from, to)
    } else {
        let none: Vec<bool> = Vec::new();
        assert(none@ =~= Seq::<bool>::empty());
        marked_from(&none, from, to)
    }
}

impl ResultPage {
    fn hides(&self, i: usize) -> (r: bool)
        ensures
            r == self@.hidden(i as int),
    {
        if i < self.classes.len() {
            assert(self@.classes[i as int] == self.classes@[i as int]@);
            in_honeypot(&self.classes[i])
        } else {
            false
        }
    }

    fn link_of(&self, i: usize) -> (r: Option<usize>)
        requires
            i < self.rows@.len(),
        ensures
            match r {
                Some(k) => self@.link(i as int) == Some(k as int) && k < self@.rows[i as int].len(),
                None => self@.link(i as int) is None,
            },
    {
        assert(self@.rows[i as int] == self.rows@[i as int]@);
        marks_of_row(&self.links, i, 1, self.rows[i].nodes.len())
    }

    fn url_of(&self, i: usize) -> (r: Option<String>)
        requires
            i < self.rows@.len(),
        ensures
            opt_view(r) == self@.url(i as int),
    {
        match self.link_of(i) {
            Some(k) => {
                assert(self@.rows[i as int] == self.rows@[i as int]@);
                match attr_of(&self.rows[i], k, 0) {
                    Some(href) => sanitize_startpage_url(href.as_str()),
                    None => {
                        let empty = String::new();
                        sanitize_startpage_url(empty.as_str())
                    },
                }
            },
            None => None,
        }
    }

    fn title_of(&self, i: usize) -> (r: String)
        requires
            i < self.rows@.len(),
        ensures
            r@ == self@.title(i as int),
    {
        match self.link_of(i) {
            Some(k) => {
                assert(self@.rows[i as int] == self.rows@[i as int]@);
                let end: usize = end_of_subtree(&self.rows[i], k);
                match marks_of_row(&self.titles, i, k + 1, end) {
                    Some(t) => text_of_element(&self.rows[i], t),
                    None => match marks_of_row(&self.headings, i, k + 1, end) {
                        Some(t) => text_of_element(&self.rows[i], t),
                        None => String::new(),
                    },
                }
            },
            None => String::new(),
        }
    }

    fn snippet_of(&self, i: usize) -> (r: String)
        requires
            i < self.rows@.len(),
        ensures
            r@ == self@.snippet(i as int),
    {
        assert(self@.rows[i as int] == self.rows@[i as int]@);
        match marks_of_row(&self.snippets, i, 1, self.rows[i].nodes.len()) {
            Some(k) => text_of_element(&self.rows[i], k),
            None => String::new(),
        }
    }

    /// Reads the rows of the page, in the order in which they were found.
    pub fn read(&self, query: &str) -> (r: Vec<SearchResult>)
        ensures
            views(r@) == self@.hits(query@, self@.rows.len()),
    {
        broadcast use {lemma_views_push, lemma_views_empty};

        let mut out: Vec<SearchResult> = Vec::new();
        let mut seen: Vec<String> = Vec::new();
        let mut i: usize = 0;
        while i < self.rows.len()
            invariant
                i <= self.rows@.len(),
                views(seen@) == self@.seen(i as nat),
                views(out@) == self@.hits(query@, i as nat),
            decreases self.rows@.len() - i,
        {
            assert(views(out@).len() == out@.len());
            if !self.hides(i) {
                match self.url_of(i) {
                    Some(url) => {
                        proof {
                            lemma_first_index(views(seen@), url@);
                        }
                        if index_in(seen.as_slice(), url.as_str()) == seen.len() {
                            seen.push(url.clone());
                            let title = self.title_of(i);
                            if !title.as_str().is_empty() && out.len() < MAX_NUM_RESULTS {
                                let rank: usize = out.len();
                                let row = SearchResult {
                                    title,
                                    url,
                                    snippet: self.snippet_of(i),
                                    provider: SearchProvider::Startpage,
                                    query: query.to_owned(),
                                    rank,
                                    published_date: None,
                                };
                                out.push(row);
                            }
                        }
                    },
                    None => {},
                }
            }
            i += 1;
        }
        out
    }
}

/// The rows of a result page.
pub const ROW_SELECTOR: &'static str = "div.result";

/// The link of a row.
pub const LINK_SELECTOR: &'static str = "a.result-link";

/// The title of a link.
pub const TITLE_SELECTOR: &'static str = "h2.wgl-title";

/// What stands in for a missing title.
pub const HEADING_SELECTOR: &'static str = "h2, h3";

/// The snippet of a row.
pub const SNIPPET_SELECTOR: &'static str = "p.description";

/// The search form.
pub const FORM_SELECTOR: &'static str = r#"form[action="/sp/search"]"#;

/// The inputs of a form.
pub const INPUT_SELECTOR: &'static str = "input";

/// What is read of a page.
pub open spec fn page_of(html: Seq<char>) -> PageView {
    PageView {
        classes: dom_ancestor_classes(html, ROW_SELECTOR@),
        rows: dom_subtrees(html, ROW_SELECTOR@, seq!["href"@]),
        links: dom_marks(html, ROW_SELECTOR@, LINK_SELECTOR@),
        titles: dom_marks(html, ROW_SELECTOR@, TITLE_SELECTOR@),
        headings: dom_marks(html, ROW_SELECTOR@, HEADING_SELECTOR@),
        snippets: dom_marks(html, ROW_SELECTOR@, SNIPPET_SELECTOR@),
    }
}

/// The hits of a page.
pub open spec fn startpage_hits(html: Seq<char>, query: Seq<char>) -> Seq<Hit> {
    page_of(html).hits(query, page_of(html).rows.len())
}

/// Reads a result page: the rows outside honeypots with a link out of the
/// engine and a title, each URL once.
pub fn parse_startpage_html(html: &str, query: &str) -> (r: Vec<SearchResult>)
    ensures
        views(r@) == startpage_hits(html@, query@),
{
    let attrs: Vec<&str> = vec!["href"];
    assert(views(attrs@) =~= seq!["href"@]);
    let page = ResultPage {
        classes: ancestor_classes(html, ROW_SELECTOR),
        rows: select_subtrees(html, ROW_SELECTOR, attrs.as_slice()),
        links: mark_nodes(html, ROW_SELECTOR, LINK_SELECTOR),
        titles: mark_nodes(html, ROW_SELECTOR, TITLE_SELECTOR),
        headings: mark_nodes(html, ROW_SELECTOR, HEADING_SELECTOR),
        snippets: mark_nodes(html, ROW_SELECTOR, SNIPPET_SELECTOR),
    };
    page.read(query)
}

/// The field that an input adds to a posted form, from its type, name and
/// value: hidden inputs, and the token whatever its type.
pub open spec fn posted_input(node: NodeView) -> Option<(Seq<char>, Seq<char>)> {
    match (attr_at(node, 1), attr_at(node, 2)) {
        (Some(name), Some(value)) => if attr_at(node, 0) == Some("hidden"@) || name == "sc"@ {
            Some((name, value))
        } else {
            None
        },
        _ => None,
    }
}

/// The fields of the marked inputs below a form, among its first `n` nodes.
pub open spec fn posted_fields(nodes: Seq<NodeView>, marks: Seq<bool>, n: int) -> Seq<
    (Seq<char>, Seq<char>),
>
    decreases n,
{
    if n <= 1 {
        Seq::empty()
    } else {
        let before = posted_fields(nodes, marks, n - 1);
        if n - 1 < marks.len() && marks[n - 1] {
            match posted_input(nodes[n - 1]) {
                Some(field) => before.push(field),
                None => before,
            }
        } else {
            before
        }
    }
}

/// The fields of the first form, from the `from`-th on, that carries the
/// token.
pub open spec fn token_form(
    forms: Seq<Seq<NodeView>>,
    marks: Seq<Seq<bool>>,
    from: int,
) -> Option<Seq<(Seq<char>, Seq<char>)>>
    decreases forms.len() - from,
{
    if from < 0 || from >= forms.len() {
        None
    } else {
        let fields = posted_fields(forms[from], row_marks(marks, from), forms[from].len() as int);
        if has_field(fields, "sc"@) {
            Some(fields)
        } else {
            token_form(forms, marks, from + 1)
        }
    }
}

/// The fields of the search form of a page.
pub open spec fn search_form(html: Seq<char>) -> Option<Seq<(Seq<char>, Seq<char>)>> {
    token_form(
        dom_subtrees(html, FORM_SELECTOR@, seq!["type"@, "name"@, "value"@]),
        dom_marks(html, FORM_SELECTOR@, INPUT_SELECTOR@),
        0,
    )
}

fn fields_of_form(form: &Subtree, marks: &Vec<bool>) -> (r: Vec<(String, String)>)
    ensures
        views(r@) == posted_fields(form@, marks@, form@.len() as int),
{
    broadcast use {lemma_views_push, lemma_views_empty};

    let mut out: Vec<(String, String)> = Vec::new();
    let mut i: usize = 1;
    let n: usize = form.nodes.len();
    while i < n
        invariant
            n == form@.len(),
            n == form.nodes@.len(),
            1 <= i,
            i <= n || i == 1,
            views(out@) == posted_fields(form@, marks@, i as int),
        decreases n - i,
    {
        if i < marks.len() && marks[i] {
            match (attr_of(form, i, 1), attr_of(form, i, 2)) {
                (Some(name), Some(value)) => {
                    let hidden = match attr_of(form, i, 0) {
                        Some(kind) => same_text(kind.as_str(), "hidden"),
                        None => false,
                    };
                    if hidden || same_text(name.as_str(), "sc") {
                        let ghost field = (name@, value@);
                        assert(posted_input(form@[i as int]) == Some(field));
                        out.push((name, value));
                    }
                },
                _ => {},
            }
        }
        i += 1;
    }
    proof {
        if n == 0 {
            assert(posted_fields(form@, marks@, 0) == posted_fields(form@, marks@, 1));
        }
    }
    out
}

/// The fields of the first form that carries the token, from the forms of a
/// page and the marks of their inputs.
pub fn form_with_token(forms: &Vec<Subtree>, marks: &Vec<Vec<bool>>) -> (r: Option<
    Vec<(String, String)>,
>)
    ensures
        match r {
            Some(form) => token_form(views(forms@), views(marks@), 0) == Some(views(form@))
                && has_field(views(form@), "sc"@),
            None => token_form(views(forms@), views(marks@), 0) is None,
        },
{
    let mut i: usize = 0;
    while i < forms.len()
        invariant
            i <= forms@.len(),
            token_form(views(forms@), views(marks@), 0) == token_form(
                views(forms@),
                views(marks@),
                i as int,
            ),
        decreases forms@.len() - i,
    {
        assert(views(forms@)[i as int] == forms@[i as int]@);
        let fields = if i < marks.len() {
            assert(views(marks@)[i as int] == marks@[i as int]@);
            fields_of_form(&forms[i], &marks[i])
        } else {
            let none: Vec<bool> = Vec::new();
            assert(none@ =~= Seq::<bool>::empty());
            fields_of_form(&forms[i], &none)
        };
        if field_filled(&fields, "sc") {
            return Some(fields);
        }
        i += 1;
    }
    None
}

/// Reads the hidden inputs of the search form, as they are. A form without
/// the token is none.
pub fn parse_search_form_inputs(html: &str) -> (r: Option<Vec<(String, String)>>)
    ensures
        match r {
            Some(form) => search_form(html@) == Some(views(form@)) && has_field(
                views(form@),
                "sc"@,
            ),
            None => search_form(html@) is None,
        },
{
    let attrs: Vec<&str> = vec!["type", "name", "value"];
    assert(views(attrs@) =~= seq!["type"@, "name"@, "value"@]);
    let forms = select_subtrees(html, FORM_SELECTOR, attrs.as_slice());
    let marks = mark_nodes(html, FORM_SELECTOR, INPUT_SELECTOR);
    form_with_token(&forms, &marks)
}

/// What the captcha wall is reported as.
pub const STARTPAGE_CHALLENGE_DETAIL: &'static str =
    "Startpage blocked the request with a CAPTCHA challenge. Retry via an accredited provider or later.";

/// What becomes of a finished exchange, given the hits of its body.
pub open spec fn startpage_exchange(
    status: u16,
    body: Seq<char>,
    final_url: Seq<char>,
    hits: Seq<Hit>,
) -> Result<Seq<Hit>, Failure> {
    if captcha(body, final_url) {
        Err(
            Failure::Challenge {
                provider: SearchProvider::Startpage,
                detail: STARTPAGE_CHALLENGE_DETAIL@,
            },
        )
    } else if !(200 <= status < 300) {
        Err(
            Failure::Upstream {
                provider: SearchProvider::Startpage,
                detail: "Startpage HTML error ("@ + decimal(status as nat) + ")"@,
            },
        )
    } else {
        Ok(hits)
    }
}

/// Turns a finished exchange into rows or a failure.
pub fn map_startpage_response(status: u16, body: &str, final_url: &str, query: &str) -> (r: Result<
    Vec<SearchResult>,
    SearchProviderError,
>)
    ensures
        rows_view(r) == startpage_exchange(
            status,
            body@,
            final_url@,
            startpage_hits(body@, query@),
        ),
{
    if is_startpage_challenge(body, final_url) {
        return Err(
            SearchProviderError::Challenge {
                provider: SearchProvider::Startpage,
                detail: STARTPAGE_CHALLENGE_DETAIL.to_owned(),
            },
        );
    }
    if !(200 <= status && status < 300) {
        let mut detail = "Startpage HTML error (".to_owned();
        let code = decimal_text(status as u64);
        detail.append(code.as_str());
        detail.append(")");
        return Err(SearchProviderError::Upstream { provider: SearchProvider::Startpage, detail });
    }
    Ok(parse_startpage_html(body, query))
}

/// The answer of the homepage.
#[derive(Debug)]
pub struct HomePage {
    pub status: u16,
    pub final_url: String,
    pub body: String,
}

/// The fields that the homepage gives to post. A failed request, a status
/// outside 2xx, the captcha wall and a page without the token all give none.
pub open spec fn home_fields(home: Option<HomePage>) -> Option<Seq<(Seq<char>, Seq<char>)>> {
    match home {
        None => None,
        Some(page) => if !(200 <= page.status < 300) || captcha(page.body@, page.final_url@) {
            None
        } else {
            search_form(page.body@)
        },
    }
}

/// The fields of the homepage's form, where it can be had. Nothing here is an
/// error: the direct request takes over.
pub fn fetch_startpage_form_inputs(home: &Option<HomePage>) -> (r: Option<Vec<(String, String)>>)
    ensures
        match r {
            Some(form) => home_fields(*home) == Some(views(form@)),
            None => home_fields(*home) is None,
        },
{
    match home {
        None => None,
        Some(page) => {
            if !(200 <= page.status && page.status < 300) || is_startpage_challenge(
                page.body.as_str(),
                page.final_url.as_str(),
            ) {
                None
            } else {
                parse_search_form_inputs(page.body.as_str())
            }
        },
    }
}

/// The request of a search.
#[derive(Debug)]
pub enum SearchRequest {
    /// Post these fields.
    Post(Vec<(String, String)>),
    /// Ask the search page directly with these parameters.
    Get(Vec<(String, String)>),
}

/// What a search request says.
#[verifier::ext_equal]
pub enum SearchRequestView {
    Post(Seq<(Seq<char>, Seq<char>)>),
    Get(Seq<(Seq<char>, Seq<char>)>),
}

impl View for SearchRequest {
    type V = SearchRequestView;

    open spec fn view(&self) -> SearchRequestView {
        match *self {
            SearchRequest::Post(fields) => SearchRequestView::Post(views(fields@)),
            SearchRequest::Get(fields) => SearchRequestView::Get(views(fields@)),
        }
    }
}

/// Fields with the query and the time filter behind them.
pub open spec fn with_query(
    fields: Seq<(Seq<char>, Seq<char>)>,
    query: Seq<char>,
    recency: Option<Recency>,
) -> Seq<(Seq<char>, Seq<char>)> {
    let asked = fields.push(("query"@, query));
    match recency {
        Some(r) => asked.push(("with_date"@, recency_param(r))),
        None => asked,
    }
}

/// The request of a search: the homepage's fields posted as they are, or else
/// a direct request.
pub open spec fn planned_request(
    inputs: Option<Seq<(Seq<char>, Seq<char>)>>,
    query: Seq<char>,
    recency: Option<Recency>,
) -> SearchRequestView {
    match inputs {
        Some(fields) => SearchRequestView::Post(with_query(fields, query, recency)),
        None => SearchRequestView::Get(with_query(Seq::empty(), query, recency)),
    }
}

fn add_query(
    fields: Vec<(String, String)>,
    query: &str,
    recency: Option<Recency>,
) -> (r: Vec<(String, String)>)
    ensures
        views(r@) == with_query(views(fields@), query@, recency),
{
    broadcast use lemma_views_push;

    let mut out = fields;
    out.push(("query".to_owned(), query.to_owned()));
    match recency {
        Some(recency) => {
            out.push(("with_date".to_owned(), recency.param().to_owned()));
        },
        None => {},
    }
    out
}

/// Plans the request of a search from the homepage's fields.
pub fn startpage_request(
    inputs: Option<Vec<(String, String)>>,
    query: &str,
    recency: Option<Recency>,
) -> (r: SearchRequest)
    ensures
        r@ == planned_request(
            match inputs {
                Some(fields) => Some(views(fields@)),
                None => None,
            },
            query@,
            recency,
        ),
{
    match inputs {
        Some(fields) => SearchRequest::Post(add_query(fields, query, recency)),
        None => {
            let none: Vec<(String, String)> = Vec::new();
            proof {
                lemma_views_empty(none@);
            }
            SearchRequest::Get(add_query(none, query, recency))
        },
    }
}

/// Every hit of a result page has a title, a web URL, the query that was
/// asked and its position as rank; no URL occurs twice; and there are at most
/// `MAX_NUM_RESULTS`.
pub proof fn law_startpage_hits_are_usable(page: PageView, query: Seq<char>, n: nat)
    ensures
        page.hits(query, n).len() <= MAX_NUM_RESULTS,
        forall|i: int|
            0 <= i < page.hits(query, n).len() ==> {
                let h = #[trigger] page.hits(query, n)[i];
                &&& h.title.len() > 0
                &&& is_web_url(h.url)
                &&& h.query == query
                &&& h.provider == SearchProvider::Startpage
                &&& h.rank == i
                &&& page.seen(n).contains(h.url)
            },
        forall|i: int, j: int|
            0 <= i < j < page.hits(query, n).len() ==> (#[trigger] page.hits(query, n)[i]).url != (
            #[trigger] page.hits(query, n)[j]).url,
    decreases n,
{
    if n > 0 {
        let m = (n - 1) as nat;
        law_startpage_hits_are_usable(page, query, m);
        let before = page.hits(query, m);
        let after = page.hits(query, n);
        let old_seen = page.seen(m);
        let seen = page.seen(n);
        assert forall|u: Seq<char>| old_seen.contains(u) implies #[trigger] seen.contains(u) by {
            let k = choose|k: int| 0 <= k < old_seen.len() && old_seen[k] == u;
            assert(seen[k] == u);
        }
        if after.len() > before.len() {
            let url = page.url(n - 1)->0;
            assert(seen == old_seen.push(url));
            assert(seen[old_seen.len() as int] == url);
        }
        assert forall|i: int| 0 <= i < after.len() implies {
            let h = #[trigger] after[i];
            &&& h.title.len() > 0
            &&& is_web_url(h.url)
            &&& h.query == query
            &&& h.provider == SearchProvider::Startpage
            &&& h.rank == i
            &&& seen.contains(h.url)
        } by {
            if i < before.len() {
                assert(after[i] == before[i]);
            }
        }
        assert forall|i: int, j: int| 0 <= i < j < after.len() implies (#[trigger] after[i]).url != (
        #[trigger] after[j]).url by {
            assert(after[i] == before[i]);
            if j < before.len() {
                assert(after[j] == before[j]);
            } else {
                assert(old_seen.contains(before[i].url));
            }
        }
    }
}

/// The wall is recognised by the address that the answer came from or by the
/// marker in the page, wherever they stand; an address without a slash and a
/// page without a hyphen are none.
pub proof fn law_captcha_walls_are_recognised(
    before: Seq<char>,
    after: Seq<char>,
    body: Seq<char>,
    final_url: Seq<char>,
)
    ensures
        captcha(body, before + "/en/errors/"@ + after),
        captcha(body, before + "/sp/captcha"@ + after),
        captcha(before + "component---src-pages-captcha"@ + after, final_url),
        !final_url.contains('/') && !body.contains('-') ==> !captcha(body, final_url),
{
    lemma_has_middle(before, "/en/errors/"@, after);
    lemma_has_middle(before, "/sp/captcha"@, after);
    lemma_has_middle(before, "component---src-pages-captcha"@, after);
    reveal_strlit("/en/errors/");
    reveal_strlit("/sp/captcha");
    reveal_strlit("component---src-pages-captcha");
    if !final_url.contains('/') && !body.contains('-') {
        lemma_has_char(final_url, "/en/errors/"@, 0);
        lemma_has_char(final_url, "/sp/captcha"@, 0);
        lemma_has_char(body, "component---src-pages-captcha"@, 9);
    }
}

proof fn lemma_has_char(s: Seq<char>, needle: Seq<char>, k: int)
    requires
        0 <= k < needle.len(),
    ensures
        has_text(s, needle) ==> s.contains(needle[k]),
{
    if has_text(s, needle) {
        let i = choose|i: int| crate::text::occurs_at(s, needle, i);
        assert(s[i + k] == s.subrange(i, i + needle.len())[k]);
    }
}

/// An answer is read for its hits exactly where it is no wall and a success.
/// A wall is told before a failed status, and a failed status is named.
pub proof fn law_startpage_answers_are_told(
    status: u16,
    body: Seq<char>,
    final_url: Seq<char>,
    hits: Seq<Hit>,
)
    ensures
        ({
            let r = startpage_exchange(status, body, final_url, hits);
            &&& r == Ok::<Seq<Hit>, Failure>(hits) <==> !captcha(body, final_url) && 200 <= status
                <= 299
            &&& captcha(body, final_url) <==> (r matches Err(Failure::Challenge { provider, .. })
                && provider == SearchProvider::Startpage)
            &&& !captcha(body, final_url) && !(200 <= status <= 299) ==> (r matches Err(
                Failure::Upstream { provider, detail },
            ) && provider == SearchProvider::Startpage && has_text(detail, decimal(status as nat)))
        }),
{
    lemma_has_middle("Startpage HTML error ("@, decimal(status as nat), ")"@);
}

/// The engine's own pages are no results: its host and the hosts below it are
/// its own, and a host that only ends in the same letters is not.
pub proof fn law_own_hosts_are_told(sub: Seq<char>)
    ensures
        is_own_host("startpage.com"@),
        is_own_host(sub + ".startpage.com"@),
        sub.len() > 0 && sub.last() != '.' ==> !is_own_host(sub + "startpage.com"@),
        sub.len() < 13 ==> !is_own_host(sub),
{
    reveal_strlit("startpage.com");
    reveal_strlit(".startpage.com");
    let below = sub + ".startpage.com"@;
    assert(below.skip(below.len() - 14) =~= ".startpage.com"@);
    if sub.len() > 0 && sub.last() != '.' {
        let other = sub + "startpage.com"@;
        assert(other[other.len() - 14] == sub.last());
        if ".startpage.com"@.is_suffix_of(other) {
            assert(other.skip(other.len() - 14)[0] == '.');
        }
    }
}

/// The target of a link is the link without the white space around it, where
/// that is a web address of another host, and nothing otherwise.
pub proof fn law_links_lead_elsewhere(href: Seq<char>)
    ensures
        match exit_url(href) {
            Some(target) => {
                &&& target == trim(href)
                &&& is_web_url(target)
                &&& parsed_url(target) matches Some(url) && (url.host matches Some(host)
                    ==> !is_own_host(lowercase(host)))
            },
            None => {
                ||| !is_web_url(trim(href))
                ||| parsed_url(trim(href)) is None
                ||| parsed_url(trim(href)) matches Some(url) && is_own_host(
                    lowercase(
                        match url.host {
                            Some(host) => host,
                            None => Seq::empty(),
                        },
                    ),
                )
            },
        },
{
}

/// Whether `k` is the first marked place from `from` on, before `to`.
pub open spec fn is_first_mark(marks: Seq<bool>, from: int, to: int, k: int) -> bool {
    &&& 0 <= from <= k < to
    &&& k < marks.len() && marks[k]
    &&& forall|j: int| from <= j < k ==> !(#[trigger] marks[j])
}

/// Whether no place from `from` on, before `to`, is marked.
pub open spec fn no_mark(marks: Seq<bool>, from: int, to: int) -> bool {
    forall|j: int| 0 <= from <= j < to && j < marks.len() ==> !(#[trigger] marks[j])
}

proof fn lemma_first_marked(marks: Seq<bool>, from: int, to: int, k: int)
    ensures
        is_first_mark(marks, from, to, k) ==> first_marked(marks, from, to) == Some(k),
        0 <= from && no_mark(marks, from, to) ==> first_marked(marks, from, to) is None,
    decreases to - from,
{
    if from < to {
        lemma_first_marked(marks, from + 1, to, k);
        if is_first_mark(marks, from, to, k) && from < k {
            assert(!marks[from]);
        }
    }
}

/// Whether the element at `k` ends before `end`: everything between is inside
/// it, and what stands at `end` is not.
pub open spec fn is_subtree(nodes: Seq<NodeView>, k: int, end: int) -> bool {
    &&& 0 <= k < end <= nodes.len()
    &&& forall|j: int| k < j < end ==> (#[trigger] nodes[j]).depth > nodes[k].depth
    &&& end < nodes.len() ==> nodes[end].depth <= nodes[k].depth
}

proof fn lemma_subtree_end(nodes: Seq<NodeView>, k: int, from: int, end: int)
    requires
        is_subtree(nodes, k, end),
        k < from <= end,
    ensures
        subtree_end(nodes, k, from) == end,
    decreases end - from,
{
    if from < end {
        lemma_subtree_end(nodes, k, from + 1, end);
    }
}

/// The words of a row are read in order: those of two stretches are those of
/// the one and then those of the other, and a node has its own text alone.
pub proof fn law_texts_are_read_in_order(nodes: Seq<NodeView>, a: int, b: int, c: int)
    requires
        a <= b <= c,
    ensures
        text_in(nodes, a, c) == text_in(nodes, a, b) + text_in(nodes, b, c),
        text_in(nodes, a, a + 1) == match nodes[a].text {
            Some(t) => t,
            None => Seq::empty(),
        },
        text_in(nodes, a, a).len() == 0,
    decreases c - b,
{
    assert(text_in(nodes, a, a) =~= Seq::empty());
    assert(text_in(nodes, a, a + 1) =~= match nodes[a].text {
        Some(t) => t,
        None => Seq::empty(),
    });
    if b < c {
        law_texts_are_read_in_order(nodes, a, b, c - 1);
        assert(text_in(nodes, a, c) =~= text_in(nodes, a, b) + text_in(nodes, b, c));
    } else {
        assert(text_in(nodes, a, c) =~= text_in(nodes, a, b) + text_in(nodes, b, c));
    }
}

/// A row is read from its first link: its address is where that link leads,
/// and its title is the text of the first title inside the link, or of the
/// first heading there where it has no title. `k` is the link and `end` its
/// end; `t` is the place of the title and `e` the end of that.
pub proof fn law_rows_are_read_from_their_first_link(
    page: PageView,
    i: int,
    k: int,
    end: int,
    t: int,
    e: int,
)
    requires
        0 <= i < page.rows.len(),
    ensures
        ({
            let nodes = page.rows[i];
            let links = row_marks(page.links, i);
            let titles = row_marks(page.titles, i);
            let headings = row_marks(page.headings, i);
            &&& no_mark(links, 1, nodes.len() as int) ==> page.url(i) is None && page.title(
                i,
            ).len() == 0
            &&& is_first_mark(links, 1, nodes.len() as int, k) ==> {
                &&& nodes[k].attrs.len() > 0 && nodes[k].attrs[0] is Some ==> page.url(i)
                    == exit_url(nodes[k].attrs[0]->0)
                &&& nodes[k].attrs.len() > 0 && nodes[k].attrs[0] is None ==> page.url(i)
                    == exit_url(Seq::empty())
                &&& is_subtree(nodes, k, end) ==> {
                    &&& is_subtree(nodes, t, e) && is_first_mark(titles, k + 1, end, t)
                        ==> page.title(i) == collapse(text_in(nodes, t, e))
                    &&& is_subtree(nodes, t, e) && no_mark(titles, k + 1, end) && is_first_mark(
                        headings,
                        k + 1,
                        end,
                        t,
                    ) ==> page.title(i) == collapse(text_in(nodes, t, e))
                    &&& no_mark(titles, k + 1, end) && no_mark(headings, k + 1, end)
                        ==> page.title(i).len() == 0
                }
            }
        }),
{
    let nodes = page.rows[i];
    lemma_first_marked(row_marks(page.links, i), 1, nodes.len() as int, k);
    lemma_first_marked(row_marks(page.titles, i), k + 1, end, t);
    lemma_first_marked(row_marks(page.headings, i), k + 1, end, t);
    if is_subtree(nodes, k, end) {
        lemma_subtree_end(nodes, k, k + 1, end);
    }
    if is_subtree(nodes, t, e) {
        lemma_subtree_end(nodes, t, t + 1, e);
    }
}

/// The snippet of a row is the text of its first description, and nothing
/// where it has none.
pub proof fn law_snippets_are_descriptions(page: PageView, i: int, k: int, e: int)
    requires
        0 <= i < page.rows.len(),
    ensures
        no_mark(row_marks(page.snippets, i), 1, page.rows[i].len() as int) ==> page.snippet(
            i,
        ).len() == 0,
        is_first_mark(row_marks(page.snippets, i), 1, page.rows[i].len() as int, k) && is_subtree(
            page.rows[i],
            k,
            e,
        ) ==> page.snippet(i) == collapse(text_in(page.rows[i], k, e)),
{
    let nodes = page.rows[i];
    lemma_first_marked(row_marks(page.snippets, i), 1, nodes.len() as int, k);
    if is_subtree(nodes, k, e) {
        lemma_subtree_end(nodes, k, k + 1, e);
    }
}

/// A row inside a decoy is hidden, and one without such a class around it is
/// not.
pub proof fn law_decoys_are_hidden(page: PageView, i: int)
    requires
        0 <= i < page.classes.len(),
    ensures
        page.classes[i].contains("a-bg-result"@) ==> page.hidden(i),
        page.classes[i].len() == 0 ==> !page.hidden(i),
        (forall|j: int| 0 <= j < page.classes[i].len() ==> (#[trigger] page.classes[i][j]).len() != 11)
            ==> !page.hidden(i),
{
    reveal_strlit("a-bg-result");
    let name = "a-bg-result"@;
    assert(ascii_lower(name) =~= name);
    if page.classes[i].contains(name) {
        let j = choose|j: int| 0 <= j < page.classes[i].len() && page.classes[i][j] == name;
        assert(ascii_lower(page.classes[i][j]) == name);
    }
}

/// Whether a row gives a hit: it is shown, leads somewhere that no shown row
/// before it leads to, and has a title.
pub open spec fn is_fresh_row(page: PageView, i: int) -> bool {
    &&& !page.hidden(i)
    &&& page.url(i) is Some
    &&& page.title(i).len() > 0
    &&& forall|j: int| 0 <= j < i && !page.hidden(j) ==> #[trigger] page.url(j) != page.url(i)
}

/// How many of the first `n` rows give a hit.
pub open spec fn fresh_rows_to(page: PageView, n: int) -> nat
    decreases n,
{
    if n <= 0 {
        0
    } else {
        fresh_rows_to(page, n - 1) + if is_fresh_row(page, n - 1) {
            1nat
        } else {
            0nat
        }
    }
}

proof fn lemma_fresh_rows_to(page: PageView, k: int, n: int)
    requires
        0 <= k < n,
    ensures
        fresh_rows_to(page, k) <= fresh_rows_to(page, n),
        is_fresh_row(page, k) ==> fresh_rows_to(page, k) < fresh_rows_to(page, n),
    decreases n - k,
{
    if k + 1 < n {
        lemma_fresh_rows_to(page, k, n - 1);
    }
}

proof fn lemma_seen(page: PageView, n: nat, url: Seq<char>)
    ensures
        page.seen(n).contains(url) <==> exists|j: int|
            0 <= j < n && !page.hidden(j) && #[trigger] page.url(j) == Some(url),
    decreases n,
{
    if n > 0 {
        let m = (n - 1) as nat;
        lemma_seen(page, m, url);
        let before = page.seen(m);
        let after = page.seen(n);
        if before.contains(url) {
            let k = choose|k: int| 0 <= k < before.len() && before[k] == url;
            assert(after[k] == url);
        }
        if after.contains(url) && !before.contains(url) {
            let k = choose|k: int| 0 <= k < after.len() && after[k] == url;
            if k < before.len() {
                assert(before[k] == url);
            }
            assert(page.url(n - 1) == Some(url));
        }
        if !page.hidden(n - 1) && page.url(n - 1) == Some(url) && !before.contains(url) {
            assert(after[before.len() as int] == url);
        }
    }
}

/// The rows that give a hit are the hits, in the order of the page and up to
/// twenty of them: each with the title, the address and the snippet of its
/// row, and its place as rank.
pub proof fn law_shown_rows_are_the_hits(page: PageView, query: Seq<char>, n: nat)
    ensures
        page.hits(query, n).len() == if fresh_rows_to(page, n as int) <= 20 {
            fresh_rows_to(page, n as int)
        } else {
            20
        },
        forall|i: int|
            0 <= i < n && #[trigger] is_fresh_row(page, i) && fresh_rows_to(page, i) < 20 ==> {
                let h = page.hits(query, n)[fresh_rows_to(page, i) as int];
                &&& h.title == page.title(i)
                &&& Some(h.url) == page.url(i)
                &&& h.snippet == page.snippet(i)
                &&& h.provider == SearchProvider::Startpage
                &&& h.query == query
                &&& h.rank == fresh_rows_to(page, i)
                &&& h.published_date is None
            },
    decreases n,
{
    if n > 0 {
        let m = (n - 1) as nat;
        law_shown_rows_are_the_hits(page, query, m);
        if page.url(n - 1) is Some {
            lemma_seen(page, m, page.url(n - 1)->0);
        }
        assert forall|i: int|
            0 <= i < n && #[trigger] is_fresh_row(page, i) && fresh_rows_to(page, i)
                < 20 implies {
            let h = page.hits(query, n)[fresh_rows_to(page, i) as int];
            &&& h.title == page.title(i)
            &&& Some(h.url) == page.url(i)
            &&& h.snippet == page.snippet(i)
            &&& h.provider == SearchProvider::Startpage
            &&& h.query == query
            &&& h.rank == fresh_rows_to(page, i)
            &&& h.published_date is None
        } by {
            if i < m {
                lemma_fresh_rows_to(page, i, m as int);
            }
        }
    }
}

/// Whether a node of a form is an input that is posted with this name and
/// value: a hidden one, or the token.
pub open spec fn is_posted(
    nodes: Seq<NodeView>,
    marks: Seq<bool>,
    k: int,
    name: Seq<char>,
    value: Seq<char>,
) -> bool {
    &&& 1 <= k < nodes.len() && k < marks.len() && marks[k]
    &&& nodes[k].attrs.len() > 2
    &&& nodes[k].attrs[1] == Some(name)
    &&& nodes[k].attrs[2] == Some(value)
    &&& nodes[k].attrs[0] == Some("hidden"@) || name == "sc"@
}

/// The posted fields of a form are those of its hidden inputs and of the
/// token: a field is posted exactly where an input has it, and an input adds
/// its field behind those of the inputs before it.
pub proof fn law_hidden_inputs_are_posted(
    nodes: Seq<NodeView>,
    marks: Seq<bool>,
    n: int,
    name: Seq<char>,
    value: Seq<char>,
)
    requires
        1 <= n <= nodes.len(),
    ensures
        posted_fields(nodes, marks, n).contains((name, value)) <==> exists|k: int|
            k < n && #[trigger] is_posted(nodes, marks, k, name, value),
        n < nodes.len() && is_posted(nodes, marks, n, name, value) ==> posted_fields(
            nodes,
            marks,
            n + 1,
        ) == posted_fields(nodes, marks, n).push((name, value)),
        posted_fields(nodes, marks, n).len() < n,
    decreases n,
{
    let after = posted_fields(nodes, marks, n);
    if n > 1 {
        law_hidden_inputs_are_posted(nodes, marks, n - 1, name, value);
        let before = posted_fields(nodes, marks, n - 1);
        if before.contains((name, value)) {
            let k = choose|k: int| 0 <= k < before.len() && before[k] == (name, value);
            assert(after[k] == (name, value));
        }
        if after.contains((name, value)) && !before.contains((name, value)) {
            let k = choose|k: int| 0 <= k < after.len() && after[k] == (name, value);
            if k < before.len() {
                assert(before[k] == (name, value));
            }
            assert(is_posted(nodes, marks, n - 1, name, value));
        }
        if is_posted(nodes, marks, n - 1, name, value) {
            assert(after[before.len() as int] == (name, value));
        }
    }
}

/// The form that is posted is the first that has a token.
pub proof fn law_the_first_form_with_a_token_is_posted(
    forms: Seq<Seq<NodeView>>,
    marks: Seq<Seq<bool>>,
    from: int,
)
    requires
        0 <= from,
    ensures
        match token_form(forms, marks, from) {
            Some(fields) => exists|i: int|
                {
                    &&& from <= i < forms.len()
                    &&& fields == #[trigger] posted_fields(
                        forms[i],
                        row_marks(marks, i),
                        forms[i].len() as int,
                    )
                    &&& has_field(fields, "sc"@)
                    &&& forall|j: int|
                        from <= j < i ==> !has_field(
                            #[trigger] posted_fields(
                                forms[j],
                                row_marks(marks, j),
                                forms[j].len() as int,
                            ),
                            "sc"@,
                        )
                },
            None => forall|j: int|
                from <= j < forms.len() ==> !has_field(
                    #[trigger] posted_fields(forms[j], row_marks(marks, j), forms[j].len() as int),
                    "sc"@,
                ),
        },
    decreases forms.len() - from,
{
    if from < forms.len() {
        law_the_first_form_with_a_token_is_posted(forms, marks, from + 1);
        let fields = posted_fields(forms[from], row_marks(marks, from), forms[from].len() as int);
        if !has_field(fields, "sc"@) && token_form(forms, marks, from) is Some {
            let found = token_form(forms, marks, from)->0;
            let i = choose|i: int|
                {
                    &&& from + 1 <= i < forms.len()
                    &&& found == #[trigger] posted_fields(
                        forms[i],
                        row_marks(marks, i),
                        forms[i].len() as int,
                    )
                    &&& has_field(found, "sc"@)
                    &&& forall|j: int|
                        from + 1 <= j < i ==> !has_field(
                            #[trigger] posted_fields(
                                forms[j],
                                row_marks(marks, j),
                                forms[j].len() as int,
                            ),
                            "sc"@,
                        )
                };
            assert(forms[i].len() >= 0);
        }
    }
}

/// A form is taken from the homepage only where that is a success and no
/// wall.
pub proof fn law_forms_come_from_a_good_homepage(home: Option<HomePage>)
    ensures
        home is None ==> home_fields(home) is None,
        home matches Some(page) ==> {
            &&& 200 <= page.status <= 299 && !captcha(page.body@, page.final_url@)
                ==> home_fields(home) == search_form(page.body@)
            &&& !(200 <= page.status <= 299) || captcha(page.body@, page.final_url@)
                ==> home_fields(home) is None
        },
{
}

/// The search is posted with every input of the form, or asked for where
/// there is no form; the query follows the inputs, and the window the query
/// where there is one.
pub proof fn law_the_query_is_asked_with_the_form(
    inputs: Option<Seq<(Seq<char>, Seq<char>)>>,
    query: Seq<char>,
    recency: Option<Recency>,
)
    ensures
        ({
            let r = planned_request(inputs, query, recency);
            let given = match inputs {
                Some(fields) => fields,
                None => Seq::empty(),
            };
            let sent = match r {
                SearchRequestView::Post(fields) => fields,
                SearchRequestView::Get(fields) => fields,
            };
            let count = given.len() as int;
            &&& r is Post <==> inputs is Some
            &&& given.is_prefix_of(sent)
            &&& sent[count] == ("query"@, query)
            &&& recency is None ==> sent.len() == count + 1
            &&& recency matches Some(window) ==> sent.len() == count + 2 && sent[count + 1] == (
                "with_date"@,
                recency_param(window),
            )
        }),
{
    let given = match inputs {
        Some(fields) => fields,
        None => Seq::empty(),
    };
    assert(given.is_prefix_of(with_query(given, query, recency)));
}

} // verus!
