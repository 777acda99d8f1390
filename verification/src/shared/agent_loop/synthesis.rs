//! Reading the final answer: plain text becomes a typed synthesis.
//!
//! The only hard gate is that the answer is not blank: untidy markdown never
//! fails a good answer.

use vstd::prelude::*;
use crate::shared::types::synthesis::{Citation, Synthesis, SynthesisSize, ThemeSection};
use crate::shared::web_engine_search::ddg::web_url;
use crate::text::{begins_with, blank, chars_of, find_in, joined, same_text, split_on, string_of,
    text_from, trimmed, words_of};
#[allow(unused_imports)]
use crate::shared::types::synthesis::{CitationView, SectionView, SynthesisView};
#[allow(unused_imports)]
use crate::shared::web_engine_search::ddg::is_web_url;
#[allow(unused_imports)]
use crate::text::{find_from, has_text, is_blank, is_white_space, join, law_joining_loses_nothing,
    law_splitting_goes_piece_by_piece, law_trimming_takes_the_white_space_around, lemma_find_from,
    lemma_find_is, lemma_find_shift, lemma_join_has, lemma_trim, lemma_views_empty,
    lemma_views_push, lemma_whole_piece, length_to, occurs_at, opt_view, split, trim, views,
    words};

verus! {

/// Why an answer could not be read.
#[derive(Debug, Clone, Copy, PartialEq, Eq, Structural)]
pub enum AnswerError {
    /// The answer is blank.
    EmptyAnswer,
}

impl AnswerError {
    /// The error in words.
    pub fn to_string(&self) -> (r: String)
        ensures
            r@ == "empty answer block"@,
    {
        "empty answer block".to_owned()
    }
}

/// Whether a link target is cited: a web URL without white space.
pub open spec fn is_citable(target: Seq<char>) -> bool {
    is_web_url(target) && forall|i: int|
        0 <= i < target.len() ==> !is_white_space(#[trigger] target[i])
}

/// The title of a link; none where the label is blank.
pub open spec fn link_title(label: Seq<char>) -> Option<Seq<char>> {
    if trim(label).len() == 0 {
        None
    } else {
        Some(trim(label))
    }
}

/// The links of a text from `cursor` on, in document order: a label in
/// brackets and right behind it a citable target in parentheses.
pub open spec fn links_from(s: Seq<char>, cursor: int) -> Seq<CitationView>
    decreases s.len() - cursor,
{
    proof {
        link_positions(s, cursor);
    }
    if cursor < 0 || cursor >= s.len() {
        Seq::empty()
    } else {
        match find_from(s, seq!['['], cursor) {
            None => Seq::empty(),
            Some(open) => match find_from(s, seq![']'], open) {
                None => Seq::empty(),
                Some(close) => if close + 1 >= s.len() || s[close + 1] != '(' {
                    links_from(s, close + 1)
                } else {
                    match find_from(s, seq![')'], close + 2) {
                        None => Seq::empty(),
                        Some(end) => {
                            let target = trim(s.subrange(close + 2, end));
                            let rest = links_from(s, end + 1);
                            if is_citable(target) {
                                seq![
                                    CitationView {
                                        url: target,
                                        title: link_title(s.subrange(open + 1, close)),
                                    },
                                ] + rest
                            } else {
                                rest
                            }
                        },
                    }
                },
            },
        }
    }
}

/// Every bracket that the scan looks for stands behind the one before.
pub proof fn link_positions(s: Seq<char>, cursor: int)
    ensures
        cursor >= 0 ==> match find_from(s, seq!['['], cursor) {
            None => true,
            Some(open) => cursor <= open < s.len() && match find_from(s, seq![']'], open) {
                None => true,
                Some(close) => open < close < s.len() && match find_from(
                    s,
                    seq![')'],
                    close + 2,
                ) {
                    None => true,
                    Some(end) => close + 2 <= end < s.len(),
                },
            },
        },
{
    if cursor >= 0 {
        lemma_find_from(s, seq!['['], cursor);
        match find_from(s, seq!['['], cursor) {
            None => {},
            Some(open) => {
                lemma_find_from(s, seq![']'], open);
                assert(s.subrange(open, open + 1)[0] == s[open]);
                match find_from(s, seq![']'], open) {
                    None => {},
                    Some(close) => {
                        assert(s.subrange(close, close + 1)[0] == s[close]);
                        lemma_find_from(s, seq![')'], close + 2);
                    },
                }
            },
        }
    }
}

/// The links of a text, in document order.
pub open spec fn links(s: Seq<char>) -> Seq<CitationView> {
    links_from(s, 0)
}

/// Whether one of the citations has this URL.
pub open spec fn cites(citations: Seq<CitationView>, url: Seq<char>) -> bool {
    exists|i: int| 0 <= i < citations.len() && (#[trigger] citations[i]).url == url
}

/// The citations without those whose URL came before.
pub open spec fn deduped(all: Seq<CitationView>) -> Seq<CitationView>
    decreases all.len(),
{
    if all.len() == 0 {
        Seq::empty()
    } else {
        let before = deduped(all.drop_last());
        if cites(before, all.last().url) {
            before
        } else {
            before.push(all.last())
        }
    }
}

fn no_white_space(s: &str) -> (r: bool)
    ensures
        r == forall|i: int| 0 <= i < s@.len() ==> !is_white_space(#[trigger] s@[i]),
{
    let chars = chars_of(s);
    let mut i: usize = 0;
    while i < chars.len()
        invariant
            chars@ == s@,
            i <= s@.len(),
            forall|k: int| 0 <= k < i ==> !is_white_space(#[trigger] s@[k]),
        decreases s@.len() - i,
    {
        if chars[i].is_whitespace() {
            assert(is_white_space(s@[i as int]));
            return false;
        }
        i += 1;
    }
    true
}

/// Reads the links of a text, in document order. Other schemes and empty
/// targets are passed over; reference links are never read.
pub fn scan_links(text: &str) -> (r: Vec<Citation>)
    ensures
        views(r@) == links(text@),
{
    let chars = chars_of(text);
    let n: usize = chars.len();
    let open_bracket: Vec<char> = vec!['['];
    let close_bracket: Vec<char> = vec![']'];
    let close_paren: Vec<char> = vec![')'];
    assert(open_bracket@ =~= seq!['[']);
    assert(close_bracket@ =~= seq![']']);
    assert(close_paren@ =~= seq![')']);
    let ghost s = text@;
    let mut out: Vec<Citation> = Vec::new();
    let mut cursor: usize = 0;
    proof {
        lemma_views_empty(out@);
        assert(views(out@) + links_from(s, 0) =~= links(s));
    }
    while cursor < n
        invariant
            chars@ == s,
            s == text@,
            n == s.len(),
            cursor <= n,
            open_bracket@ == seq!['['],
            close_bracket@ == seq![']'],
            close_paren@ == seq![')'],
            views(out@) + links_from(s, cursor as int) == links(s),
        decreases n - cursor,
    {
        let ghost so_far = views(out@);
        proof {
            link_positions(s, cursor as int);
            assert(so_far + Seq::<CitationView>::empty() =~= so_far);
        }
        let open: usize = match find_in(chars.as_slice(), open_bracket.as_slice(), cursor) {
            Some(open) => open,
            None => {
                return out;
            },
        };
        let close: usize = match find_in(chars.as_slice(), close_bracket.as_slice(), open) {
            Some(close) => close,
            None => {
                return out;
            },
        };
        if close + 1 >= n || chars[close + 1] != '(' {
            cursor = close + 1;
        } else {
            let end: usize = match find_in(chars.as_slice(), close_paren.as_slice(), close + 2) {
                Some(end) => end,
                None => {
                    return out;
                },
            };
            let raw_target = string_of(chars.as_slice(), close + 2, end);
            let target = trimmed(raw_target.as_str());
            if web_url(target.as_str()) && no_white_space(target.as_str()) {
                let raw_label = string_of(chars.as_slice(), open + 1, close);
                let label = trimmed(raw_label.as_str());
                let link = Citation {
                    url: target,
                    title: if label.as_str().is_empty() {
                        None
                    } else {
                        Some(label)
                    },
                };
                proof {
                    lemma_views_push(out@, link);
                    assert(so_far.push(link@) + links_from(s, end + 1) =~= so_far + (seq![link@]
                        + links_from(s, end + 1)));
                }
                out.push(link);
            }
            cursor = end + 1;
        }
    }
    assert(views(out@) + Seq::<CitationView>::empty() =~= views(out@));
    out
}

fn place_of(citations: &Vec<Citation>, url: &str) -> (r: Option<usize>)
    ensures
        match r {
            Some(i) => i < citations@.len() && views(citations@)[i as int].url == url@ && forall|
                k: int,
            |
                0 <= k < i ==> (#[trigger] views(citations@)[k]).url != url@,
            None => !cites(views(citations@), url@),
        },
{
    let mut i: usize = 0;
    while i < citations.len()
        invariant
            i <= citations@.len(),
            forall|k: int| 0 <= k < i ==> (#[trigger] views(citations@)[k]).url != url@,
        decreases citations@.len() - i,
    {
        assert(views(citations@)[i as int] == citations@[i as int]@);
        if same_text(citations[i].url.as_str(), url) {
            return Some(i);
        }
        i += 1;
    }
    None
}

/// Keeps the first citation of each URL.
pub fn dedupe_links(all: &Vec<Citation>) -> (r: Vec<Citation>)
    ensures
        views(r@) == deduped(views(all@)),
{
    broadcast use {lemma_views_push, lemma_views_empty};

    let ghost source = views(all@);
    let mut out: Vec<Citation> = Vec::new();
    let mut i: usize = 0;
    while i < all.len()
        invariant
            i <= all@.len(),
            source == views(all@),
            views(out@) == deduped(source.take(i as int)),
        decreases all@.len() - i,
    {
        assert(source.take(i + 1).drop_last() =~= source.take(i as int));
        assert(source.take(i + 1).last() == all@[i as int]@);
        let known = place_of(&out, all[i].url.as_str());
        if known.is_none() {
            out.push(all[i].clone());
        } else {
            assert(cites(views(out@), all@[i as int].url@));
        }
        i += 1;
    }
    assert(source.take(i as int) =~= source);
    out
}

/// The first citation of a URL.
pub open spec fn citation_of(all: Seq<CitationView>, url: Seq<char>) -> Option<CitationView>
    decreases all.len(),
{
    if all.len() == 0 {
        None
    } else if all[0].url == url {
        Some(all[0])
    } else {
        citation_of(all.drop_first(), url)
    }
}

proof fn lemma_citation_of(all: Seq<CitationView>, url: Seq<char>, i: int)
    requires
        0 <= i < all.len(),
        all[i].url == url,
        forall|k: int| 0 <= k < i ==> (#[trigger] all[k]).url != url,
    ensures
        citation_of(all, url) == Some(all[i]),
    decreases i,
{
    if i > 0 {
        let rest = all.drop_first();
        assert(all[0].url != url);
        assert forall|k: int| 0 <= k < i - 1 implies (#[trigger] rest[k]).url != url by {
            assert(rest[k] == all[k + 1]);
        }
        lemma_citation_of(rest, url, i - 1);
    }
}

proof fn lemma_no_citation(all: Seq<CitationView>, url: Seq<char>)
    requires
        !cites(all, url),
    ensures
        citation_of(all, url) is None,
    decreases all.len(),
{
    if all.len() > 0 {
        assert(all[0].url != url);
        let rest = all.drop_first();
        assert forall|k: int| 0 <= k < rest.len() implies (#[trigger] rest[k]).url != url by {
            assert(rest[k] == all[k + 1]);
        }
        lemma_no_citation(rest, url);
    }
}

/// Of the links of a section, each URL once, the citations that the whole
/// answer has of them.
pub open spec fn known_citations(local: Seq<CitationView>, all: Seq<CitationView>) -> Seq<
    CitationView,
>
    decreases local.len(),
{
    if local.len() == 0 {
        Seq::empty()
    } else {
        let before = known_citations(local.drop_last(), all);
        let url = local.last().url;
        match citation_of(all, url) {
            Some(c) => if cites(local.drop_last(), url) {
                before
            } else {
                before.push(c)
            },
            None => before,
        }
    }
}

fn citations_in(text: &str, global: &Vec<Citation>) -> (r: Vec<Citation>)
    ensures
        views(r@) == known_citations(links(text@), views(global@)),
{
    broadcast use {lemma_views_push, lemma_views_empty};

    let local = scan_links(text);
    let ghost all = views(local@);
    let mut seen: Vec<Citation> = Vec::new();
    let mut out: Vec<Citation> = Vec::new();
    let mut i: usize = 0;
    while i < local.len()
        invariant
            i <= local@.len(),
            all == views(local@),
            forall|u: Seq<char>|
                #![trigger cites(views(seen@), u)]
                cites(views(seen@), u) <==> cites(all.take(i as int), u),
            views(out@) == known_citations(all.take(i as int), views(global@)),
        decreases local@.len() - i,
    {
        let ghost before = all.take(i as int);
        let ghost next = all.take(i + 1);
        assert(next.drop_last() =~= before);
        assert(next.last() == local@[i as int]@);
        let ghost old_seen = views(seen@);
        let ghost url = local@[i as int].url@;
        let known = place_of(&seen, local[i].url.as_str());
        if known.is_none() {
            match place_of(global, local[i].url.as_str()) {
                Some(k) => {
                    proof {
                        lemma_citation_of(views(global@), url, k as int);
                    }
                    out.push(global[k].clone());
                },
                None => {
                    proof {
                        lemma_no_citation(views(global@), url);
                    }
                },
            }
        } else {
            assert(cites(old_seen, url));
        }
        seen.push(local[i].clone());
        proof {
            assert(views(seen@) == old_seen.push(local@[i as int]@));
            assert forall|u: Seq<char>| #![trigger cites(views(seen@), u)] cites(
                views(seen@),
                u,
            ) <==> cites(next, u) by {
                assert(next =~= before.push(local@[i as int]@));
                lemma_cites_push(old_seen, local@[i as int]@, u);
                lemma_cites_push(before, local@[i as int]@, u);
                assert(cites(old_seen, u) <==> cites(before, u));
            }
        }
        i += 1;
    }
    assert(all.take(i as int) =~= all);
    out
}

proof fn lemma_cites_push(all: Seq<CitationView>, c: CitationView, u: Seq<char>)
    ensures
        cites(all.push(c), u) <==> cites(all, u) || c.url == u,
{
    let more = all.push(c);
    if cites(all, u) {
        let i = choose|i: int| 0 <= i < all.len() && (#[trigger] all[i]).url == u;
        assert(more[i].url == u);
    }
    if c.url == u {
        assert(more[all.len() as int].url == u);
    }
    if cites(more, u) && c.url != u {
        let i = choose|i: int| 0 <= i < more.len() && (#[trigger] more[i]).url == u;
        assert(all[i].url == u);
    }
}

/// The number of ASCII digits at the front.
pub open spec fn leading_digits(s: Seq<char>) -> nat
    decreases s.len(),
{
    if s.len() > 0 && '0' <= s[0] <= '9' {
        1 + leading_digits(s.drop_first())
    } else {
        0
    }
}

/// A point, unless it is blank.
pub open spec fn point(text: Seq<char>) -> Option<Seq<char>> {
    if trim(text).len() == 0 {
        None
    } else {
        Some(trim(text))
    }
}

/// The text of a list line: behind `- `, `* ` or a number with a dot and a
/// blank.
pub open spec fn bullet(line: Seq<char>) -> Option<Seq<char>> {
    let d = leading_digits(line) as int;
    if "- "@.is_prefix_of(line) || "* "@.is_prefix_of(line) {
        point(line.skip(2))
    } else if d > 0 && d + 1 < line.len() && line[d] == '.' && line[d + 1] == ' ' {
        point(line.skip(d + 2))
    } else {
        None
    }
}

proof fn lemma_leading_digits(s: Seq<char>, k: int)
    requires
        0 <= k <= s.len(),
        forall|i: int| 0 <= i < k ==> '0' <= #[trigger] s[i] <= '9',
        k < s.len() ==> !('0' <= s[k] <= '9'),
    ensures
        leading_digits(s) == k,
    decreases s.len(),
{
    if k > 0 {
        let t = s.drop_first();
        assert forall|i: int| 0 <= i < k - 1 implies '0' <= #[trigger] t[i] <= '9' by {
            assert(t[i] == s[i + 1]);
        }
        lemma_leading_digits(t, k - 1);
    }
}

fn point_of(text: &str) -> (r: Option<String>)
    ensures
        opt_view(r) == point(text@),
{
    let t = trimmed(text);
    if t.as_str().is_empty() {
        None
    } else {
        Some(t)
    }
}

/// The text of a list line.
pub fn bullet_text(line: &str) -> (r: Option<String>)
    ensures
        opt_view(r) == bullet(line@),
{
    proof {
        reveal_strlit("- ");
        reveal_strlit("* ");
    }
    if begins_with(line, "- ") || begins_with(line, "* ") {
        return point_of(text_from(line, 2).as_str());
    }
    let chars = chars_of(line);
    let mut d: usize = 0;
    while d < chars.len() && '0' <= chars[d] && chars[d] <= '9'
        invariant
            chars@ == line@,
            d <= line@.len(),
            forall|i: int| 0 <= i < d ==> '0' <= #[trigger] line@[i] <= '9',
        decreases line@.len() - d,
    {
        d += 1;
    }
    proof {
        lemma_leading_digits(line@, d as int);
    }
    let n: usize = chars.len();
    if d == 0 || d >= n || n - d < 2 {
        return None;
    }
    if chars[d] != '.' || chars[d + 1] != ' ' {
        return None;
    }
    point_of(text_from(line, d + 2).as_str())
}

/// A heading line's title.
pub open spec fn heading(line: Seq<char>) -> Option<Seq<char>> {
    if "## "@.is_prefix_of(line) {
        Some(trim(line.skip(3)))
    } else {
        None
    }
}

/// An answer cut into the lines before the first heading and the lines under
/// each heading, all trimmed and none of them empty.
#[verifier::ext_equal]
pub struct Outline {
    pub summary: Seq<Seq<char>>,
    pub themes: Seq<(Seq<char>, Seq<Seq<char>>)>,
}

/// The outline with one more line, which is trimmed.
pub open spec fn add_line(outline: Outline, line: Seq<char>) -> Outline {
    match heading(line) {
        Some(title) => if title.len() == 0 {
            outline
        } else {
            Outline {
                summary: outline.summary,
                themes: outline.themes.push((title, Seq::empty())),
            }
        },
        None => if line.len() == 0 {
            outline
        } else if outline.themes.len() == 0 {
            Outline { summary: outline.summary.push(line), themes: outline.themes }
        } else {
            let last = outline.themes.last();
            Outline {
                summary: outline.summary,
                themes: outline.themes.drop_last().push((last.0, last.1.push(line))),
            }
        },
    }
}

/// The outline of lines.
pub open spec fn outline_of(lines: Seq<Seq<char>>) -> Outline
    decreases lines.len(),
{
    if lines.len() == 0 {
        Outline { summary: Seq::empty(), themes: Seq::empty() }
    } else {
        add_line(outline_of(lines.drop_last()), trim(lines.last()))
    }
}

/// The outline of an answer.
pub open spec fn outline(body: Seq<char>) -> Outline {
    outline_of(split(body, '\n'))
}

/// How many words stand in for a missing summary.
pub const SUMMARY_WORDS: usize = 24;

/// The first words of a text.
pub open spec fn opening_words(body: Seq<char>) -> Seq<char> {
    let ws = words(body);
    join(
        if ws.len() > SUMMARY_WORDS {
            ws.take(SUMMARY_WORDS as int)
        } else {
            ws
        },
        " "@,
    )
}

/// The summary of an answer: the lines before the first heading, or else its
/// first words.
pub open spec fn summary_of(body: Seq<char>) -> Seq<char> {
    if outline(body).summary.len() == 0 {
        opening_words(body)
    } else {
        join(outline(body).summary, " "@)
    }
}

/// The points of the list lines among `lines`.
pub open spec fn bullets(lines: Seq<Seq<char>>) -> Seq<Seq<char>>
    decreases lines.len(),
{
    if lines.len() == 0 {
        Seq::empty()
    } else {
        match bullet(lines.last()) {
            Some(p) => bullets(lines.drop_last()).push(p),
            None => bullets(lines.drop_last()),
        }
    }
}

/// The points of a section: its list lines, or else its text as one point, or
/// else the summary.
pub open spec fn points_of(lines: Seq<Seq<char>>, summary: Seq<char>) -> Seq<Seq<char>> {
    if bullets(lines).len() > 0 {
        bullets(lines)
    } else if lines.len() > 0 {
        seq![join(lines, " "@)]
    } else {
        seq![summary]
    }
}

/// One section of the synthesis.
pub open spec fn section_of(
    theme: (Seq<char>, Seq<Seq<char>>),
    summary: Seq<char>,
    citations: Seq<CitationView>,
) -> SectionView {
    SectionView {
        title: theme.0,
        points: points_of(theme.1, summary),
        citations: known_citations(links(join(theme.1, "\n"@)), citations),
    }
}

/// The synthesis that an answer is read as.
pub open spec fn synthesis_of(body: Seq<char>, size: SynthesisSize) -> SynthesisView {
    let citations = deduped(links(body));
    let summary = summary_of(body);
    let themes = outline(body).themes;
    SynthesisView {
        size,
        summary,
        themes: if themes.len() == 0 {
            seq![
                SectionView { title: "Findings"@, points: seq![summary], citations },
            ]
        } else {
            Seq::new(themes.len(), |i: int| section_of(themes[i], summary, citations))
        },
        citations,
    }
}

/// The lines under one heading.
pub struct Theme {
    pub title: String,
    pub lines: Vec<String>,
}

impl View for Theme {
    type V = (Seq<char>, Seq<Seq<char>>);

    open spec fn view(&self) -> (Seq<char>, Seq<Seq<char>>) {
        (self.title@, views(self.lines@))
    }
}

fn push_line(theme: &mut Theme, line: String)
    ensures
        final(theme)@ == (old(theme)@.0, old(theme)@.1.push(line@)),
{
    proof {
        lemma_views_push(theme.lines@, line);
    }
    theme.lines.push(line);
}

fn heading_title(line: &str) -> (r: Option<String>)
    ensures
        opt_view(r) == heading(line@),
{
    proof {
        reveal_strlit("## ");
    }
    if begins_with(line, "## ") {
        Some(trimmed(text_from(line, 3).as_str()))
    } else {
        None
    }
}

fn read_outline(body: &str) -> (r: (Vec<String>, Vec<Theme>))
    ensures
        outline(body@) == (Outline { summary: views(r.0@), themes: views(r.1@) }),
{
    broadcast use {lemma_views_push, lemma_views_empty};

    let lines = split_on(body, '\n');
    let ghost all = views(lines@);
    let mut summary: Vec<String> = Vec::new();
    let mut themes: Vec<Theme> = Vec::new();
    let mut i: usize = 0;
    while i < lines.len()
        invariant
            i <= lines@.len(),
            all == views(lines@),
            outline_of(all.take(i as int)) == (Outline {
                summary: views(summary@),
                themes: views(themes@),
            }),
        decreases lines@.len() - i,
    {
        assert(all.take(i + 1).drop_last() =~= all.take(i as int));
        assert(all.take(i + 1).last() == lines@[i as int]@);
        let line = trimmed(lines[i].as_str());
        let ghost before = themes@;
        match heading_title(line.as_str()) {
            Some(title) => {
                if !title.as_str().is_empty() {
                    let fresh = Theme { title, lines: Vec::new() };
                    assert(views(fresh.lines@) =~= Seq::<Seq<char>>::empty());
                    themes.push(fresh);
                }
            },
            None => {
                if !line.as_str().is_empty() {
                    if themes.is_empty() {
                        summary.push(line);
                    } else {
                        let last: usize = themes.len() - 1;
                        let ghost text = line@;
                        push_line(&mut themes[last], line);
                        assert(views(themes@) =~= views(before).drop_last().push(
                            (views(before).last().0, views(before).last().1.push(text)),
                        ));
                    }
                }
            },
        }
        i += 1;
    }
    assert(all.take(i as int) =~= all);
    (summary, themes)
}

fn first_words(body: &str) -> (r: String)
    ensures
        r@ == opening_words(body@),
{
    let mut ws = words_of(body);
    let ghost all = views(ws@);
    if ws.len() > SUMMARY_WORDS {
        ws.truncate(SUMMARY_WORDS);
        assert(views(ws@) =~= all.take(SUMMARY_WORDS as int));
    }
    joined(ws.as_slice(), " ")
}

fn bullet_points(lines: &Vec<String>) -> (r: Vec<String>)
    ensures
        views(r@) == bullets(views(lines@)),
{
    broadcast use {lemma_views_push, lemma_views_empty};

    let ghost all = views(lines@);
    let mut out: Vec<String> = Vec::new();
    let mut i: usize = 0;
    while i < lines.len()
        invariant
            i <= lines@.len(),
            all == views(lines@),
            views(out@) == bullets(all.take(i as int)),
        decreases lines@.len() - i,
    {
        assert(all.take(i + 1).drop_last() =~= all.take(i as int));
        assert(all.take(i + 1).last() == lines@[i as int]@);
        match bullet_text(lines[i].as_str()) {
            Some(p) => {
                out.push(p);
            },
            None => {},
        }
        i += 1;
    }
    assert(all.take(i as int) =~= all);
    out
}

fn section(theme: &Theme, summary: &String, citations: &Vec<Citation>) -> (r: ThemeSection)
    ensures
        r@ == section_of(theme@, summary@, views(citations@)),
{
    broadcast use {lemma_views_push, lemma_views_empty};

    let text = joined(theme.lines.as_slice(), "\n");
    let mut points = bullet_points(&theme.lines);
    assert(views(points@).len() == points@.len());
    if points.is_empty() {
        if theme.lines.is_empty() {
            points.push(summary.clone());
        } else {
            points.push(joined(theme.lines.as_slice(), " "));
        }
        assert(views(points@) =~= points_of(views(theme.lines@), summary@));
    }
    ThemeSection {
        title: theme.title.clone(),
        points,
        citations: citations_in(text.as_str(), citations),
    }
}

fn copy_citations(all: &Vec<Citation>) -> (r: Vec<Citation>)
    ensures
        views(r@) == views(all@),
{
    broadcast use {lemma_views_push, lemma_views_empty};

    let mut out: Vec<Citation> = Vec::new();
    let mut i: usize = 0;
    while i < all.len()
        invariant
            i <= all@.len(),
            views(out@) == views(all@).take(i as int),
        decreases all@.len() - i,
    {
        let c = all[i].clone();
        let ghost so_far = views(out@);
        out.push(c);
        assert(views(out@) == so_far.push(views(all@)[i as int]));
        i += 1;
        assert(views(out@) =~= views(all@).take(i as int));
    }
    assert(views(out@) =~= views(all@));
    out
}

/// Reads a final answer. A blank answer is the only error.
pub fn parse_answer(body: &str, size: SynthesisSize) -> (r: Result<Synthesis, AnswerError>)
    ensures
        match r {
            Ok(synthesis) => !is_blank(body@) && synthesis@ == synthesis_of(body@, size),
            Err(e) => is_blank(body@) && e == AnswerError::EmptyAnswer,
        },
{
    broadcast use {lemma_views_push, lemma_views_empty};

    if blank(body) {
        return Err(AnswerError::EmptyAnswer);
    }
    let citations = dedupe_links(&scan_links(body));
    let (summary_lines, themes) = read_outline(body);
    assert(views(summary_lines@).len() == summary_lines@.len());
    let summary = if summary_lines.is_empty() {
        first_words(body)
    } else {
        joined(summary_lines.as_slice(), " ")
    };
    let ghost target = synthesis_of(body@, size).themes;
    let mut sections: Vec<ThemeSection> = Vec::new();
    assert(views(themes@).len() == themes@.len());
    if themes.is_empty() {
        let mut points: Vec<String> = Vec::new();
        points.push(summary.clone());
        assert(views(points@) =~= seq![summary@]);
        let only = ThemeSection {
            title: "Findings".to_owned(),
            points,
            citations: copy_citations(&citations),
        };
        sections.push(only);
        assert(views(sections@) =~= target);
    } else {
        let mut i: usize = 0;
        while i < themes.len()
            invariant
                i <= themes@.len(),
                views(sections@) == target.take(i as int),
                target == Seq::new(
                    themes@.len(),
                    |i: int| section_of(views(themes@)[i], summary@, views(citations@)),
                ),
            decreases themes@.len() - i,
        {
            let next = section(&themes[i], &summary, &citations);
            let ghost so_far = views(sections@);
            sections.push(next);
            assert(views(sections@) == so_far.push(target[i as int]));
            i += 1;
            assert(views(sections@) =~= target.take(i as int));
        }
        assert(views(sections@) =~= target);
    }
    Ok(Synthesis { size, summary, themes: sections, citations })
}

proof fn lemma_links_are_citable(s: Seq<char>, cursor: int)
    ensures
        forall|i: int|
            0 <= i < links_from(s, cursor).len() ==> is_citable(
                (#[trigger] links_from(s, cursor)[i]).url,
            ),
    decreases s.len() - cursor,
{
    link_positions(s, cursor);
    if cursor >= 0 && cursor < s.len() {
        match find_from(s, seq!['['], cursor) {
            None => {},
            Some(open) => match find_from(s, seq![']'], open) {
                None => {},
                Some(close) => if close + 1 >= s.len() || s[close + 1] != '(' {
                    lemma_links_are_citable(s, close + 1);
                } else {
                    match find_from(s, seq![')'], close + 2) {
                        None => {},
                        Some(end) => {
                            let rest = links_from(s, end + 1);
                            lemma_links_are_citable(s, end + 1);
                            assert forall|i: int| 0 <= i < links_from(s, cursor).len() implies
                                is_citable((#[trigger] links_from(s, cursor)[i]).url) by {
                                let all = links_from(s, cursor);
                                if all.len() > rest.len() && i > 0 {
                                    assert(all[i] == rest[i - 1]);
                                } else if all.len() == rest.len() {
                                    assert(all[i] == rest[i]);
                                }
                            }
                        },
                    }
                },
            },
        }
    }
}

proof fn lemma_deduped(all: Seq<CitationView>)
    ensures
        forall|i: int, j: int|
            0 <= i < j < deduped(all).len() ==> (#[trigger] deduped(all)[i]).url != (
            #[trigger] deduped(all)[j]).url,
        forall|i: int| 0 <= i < deduped(all).len() ==> all.contains(#[trigger] deduped(all)[i]),
        forall|i: int| 0 <= i < all.len() ==> cites(deduped(all), (#[trigger] all[i]).url),
    decreases all.len(),
{
    if all.len() > 0 {
        let front = all.drop_last();
        let before = deduped(front);
        let after = deduped(all);
        lemma_deduped(front);
        assert forall|i: int, j: int| 0 <= i < j < after.len() implies (#[trigger] after[i]).url != (
        #[trigger] after[j]).url by {
            assert(after[i] == before[i]);
            if j < before.len() {
                assert(after[j] == before[j]);
            }
        }
        assert forall|i: int| 0 <= i < after.len() implies all.contains(#[trigger] after[i]) by {
            if i < before.len() {
                assert(front.contains(before[i]));
                let k = choose|k: int| 0 <= k < front.len() && front[k] == before[i];
                assert(all[k] == after[i]);
            } else {
                assert(all[all.len() - 1] == after[i]);
            }
        }
        assert forall|i: int| 0 <= i < all.len() implies cites(
            after,
            (#[trigger] all[i]).url,
        ) by {
            if i < front.len() {
                assert(front[i] == all[i]);
                assert(cites(before, front[i].url));
                let k = choose|k: int|
                    0 <= k < before.len() && (#[trigger] before[k]).url == front[i].url;
                assert(after[k] == before[k]);
            } else if after.len() > before.len() {
                assert(after[before.len() as int].url == all[i].url);
            }
        }
    }
}

proof fn lemma_known_citations(local: Seq<CitationView>, all: Seq<CitationView>)
    ensures
        forall|i: int|
            0 <= i < known_citations(local, all).len() ==> all.contains(
                #[trigger] known_citations(local, all)[i],
            ),
    decreases local.len(),
{
    if local.len() > 0 {
        lemma_known_citations(local.drop_last(), all);
        lemma_citation_is_member(all, local.last().url);
        let before = known_citations(local.drop_last(), all);
        let after = known_citations(local, all);
        assert forall|i: int| 0 <= i < after.len() implies all.contains(#[trigger] after[i]) by {
            if i < before.len() {
                assert(after[i] == before[i]);
            }
        }
    }
}

proof fn lemma_citation_is_member(all: Seq<CitationView>, url: Seq<char>)
    ensures
        match citation_of(all, url) {
            Some(c) => all.contains(c) && c.url == url,
            None => true,
        },
    decreases all.len(),
{
    if all.len() > 0 && all[0].url != url {
        lemma_citation_is_member(all.drop_first(), url);
        match citation_of(all, url) {
            Some(c) => {
                let k = choose|k: int| 0 <= k < all.drop_first().len() && all.drop_first()[k] == c;
                assert(all[k + 1] == c);
            },
            None => {},
        }
    } else if all.len() > 0 {
        assert(all.contains(all[0]));
    }
}

proof fn lemma_outline_lines(lines: Seq<Seq<char>>)
    ensures
        forall|i: int|
            0 <= i < outline_of(lines).summary.len() ==> !is_blank(
                #[trigger] outline_of(lines).summary[i],
            ),
    decreases lines.len(),
{
    if lines.len() > 0 {
        let before = outline_of(lines.drop_last());
        let line = trim(lines.last());
        lemma_outline_lines(lines.drop_last());
        let cut = lemma_trim(lines.last());
        if line.len() > 0 {
            assert(!is_blank(line)) by {
                assert(!is_white_space(line[0]));
            }
        }
        let after = outline_of(lines);
        assert forall|i: int| 0 <= i < after.summary.len() implies !is_blank(
            #[trigger] after.summary[i],
        ) by {
            if i < before.summary.len() {
                assert(after.summary[i] == before.summary[i]);
            }
        }
    }
}

proof fn lemma_join_not_empty(parts: Seq<Seq<char>>, sep: Seq<char>)
    requires
        parts.len() > 0,
        parts[0].len() > 0,
    ensures
        join(parts, sep).len() > 0,
    decreases parts.len(),
{
    if parts.len() > 1 {
        assert(parts.drop_last()[0] == parts[0]);
        lemma_join_not_empty(parts.drop_last(), sep);
    }
}

proof fn lemma_some_word(s: Seq<char>)
    requires
        !is_blank(s),
    ensures
        words(s).len() > 0,
    decreases s.len(),
{
    if is_white_space(s.last()) {
        let front = s.drop_last();
        let k = choose|k: int| 0 <= k < s.len() && !is_white_space(#[trigger] s[k]);
        assert(front[k] == s[k]);
        lemma_some_word(front);
    } else {
        crate::text::lemma_words(s);
    }
}

/// What every synthesis promises, whatever the answer was, as long as it was
/// not blank: the size that was asked for, a summary, at least one theme, at
/// least one point in each theme, citations that are web URLs with no URL
/// twice and every link of the answer among them, and in each theme only
/// citations of the whole.
pub proof fn law_synthesis_is_complete(body: Seq<char>, size: SynthesisSize)
    requires
        !is_blank(body),
    ensures
        ({
            let s = synthesis_of(body, size);
            &&& s.size == size
            &&& s.summary.len() > 0
            &&& s.themes.len() > 0
            &&& forall|i: int| 0 <= i < s.themes.len() ==> (#[trigger] s.themes[i]).points.len() > 0
            &&& forall|i: int|
                0 <= i < s.citations.len() ==> is_citable((#[trigger] s.citations[i]).url)
            &&& forall|i: int, j: int|
                0 <= i < j < s.citations.len() ==> (#[trigger] s.citations[i]).url != (
                #[trigger] s.citations[j]).url
            &&& forall|i: int|
                0 <= i < links(body).len() ==> cites(s.citations, (#[trigger] links(body)[i]).url)
            &&& forall|i: int, j: int|
                0 <= i < s.themes.len() && 0 <= j < (#[trigger] s.themes[i]).citations.len()
                    ==> s.citations.contains(#[trigger] s.themes[i].citations[j])
        }),
{
    let s = synthesis_of(body, size);
    let o = outline(body);
    lemma_outline_lines(split(body, '\n'));
    if o.summary.len() == 0 {
        lemma_some_word(body);
        crate::text::lemma_words(body);
        let ws = words(body);
        let kept = if ws.len() > SUMMARY_WORDS {
            ws.take(SUMMARY_WORDS as int)
        } else {
            ws
        };
        assert(kept[0] == ws[0]);
        assert(crate::text::is_word(ws[0]));
        lemma_join_not_empty(kept, " "@);
    } else {
        assert(!is_blank(o.summary[0]));
        lemma_join_not_empty(o.summary, " "@);
    }
    let all = links(body);
    lemma_links_are_citable(body, 0);
    lemma_deduped(all);
    assert forall|i: int| 0 <= i < s.citations.len() implies is_citable(
        (#[trigger] s.citations[i]).url,
    ) by {
        assert(all.contains(s.citations[i]));
        let k = choose|k: int| 0 <= k < all.len() && all[k] == s.citations[i];
        assert(is_citable(all[k].url));
    }
    assert forall|i: int, j: int|
        0 <= i < s.themes.len() && 0 <= j < (
        #[trigger] s.themes[i]).citations.len() implies s.citations.contains(
        #[trigger] s.themes[i].citations[j],
    ) by {
        if o.themes.len() > 0 {
            lemma_known_citations(links(join(o.themes[i].1, "\n"@)), s.citations);
        }
    }
}

/// Nothing of a section in prose is lost: where none of its lines is a list
/// line it has one point, and that point is all its lines in order, with one
/// blank between them.
pub proof fn law_prose_sections_keep_every_line(lines: Seq<Seq<char>>, summary: Seq<char>)
    requires
        lines.len() > 0,
        forall|i: int| 0 <= i < lines.len() ==> bullet(#[trigger] lines[i]) is None,
    ensures
        ({
            let points = points_of(lines, summary);
            let n = lines.len() as int;
            &&& points.len() == 1
            &&& points[0].len() == length_to(lines, n) + n - 1
            &&& forall|i: int|
                #![trigger lines[i]]
                0 <= i < n ==> occurs_at(points[0], lines[i], length_to(lines, i) + i)
            &&& forall|i: int|
                #![trigger length_to(lines, i)]
                0 < i < n ==> points[0][length_to(lines, i) + i - 1] == ' '
        }),
{
    lemma_no_bullets(lines);
    reveal_strlit(" ");
    let sep = " "@;
    let n = lines.len() as int;
    let p = join(lines, sep);
    law_joining_loses_nothing(lines, sep);
    assert((n - 1) * sep.len() == n - 1);
    assert forall|i: int| #![trigger lines[i]] 0 <= i < n implies occurs_at(
        p,
        lines[i],
        length_to(lines, i) + i,
    ) by {
        assert(i * sep.len() == i);
    }
    assert forall|i: int| #![trigger length_to(lines, i)] 0 < i < n implies p[length_to(lines, i)
        + i - 1] == ' ' by {
        assert((i - 1) * sep.len() == i - 1);
        let at = length_to(lines, i) + i - 1;
        assert(occurs_at(p, sep, at));
        assert(p.subrange(at, at + 1)[0] == sep[0]);
    }
}

proof fn lemma_no_bullets(lines: Seq<Seq<char>>)
    requires
        forall|i: int| 0 <= i < lines.len() ==> bullet(#[trigger] lines[i]) is None,
    ensures
        bullets(lines).len() == 0,
    decreases lines.len(),
{
    if lines.len() > 0 {
        assert(lines[lines.len() - 1] == lines.last());
        assert forall|i: int| 0 <= i < lines.drop_last().len() implies bullet(
            #[trigger] lines.drop_last()[i],
        ) is None by {
            assert(lines.drop_last()[i] == lines[i]);
        }
        lemma_no_bullets(lines.drop_last());
    }
}

/// A line with a mark of a list before it is read as the text behind the mark:
/// a dash, a star, or a number with a point, and a blank.
pub proof fn law_list_marks_are_taken_off(mark: Seq<char>, text: Seq<char>)
    requires
        !is_blank(text),
    ensures
        bullet("- "@ + text) == Some(trim(text)),
        bullet("* "@ + text) == Some(trim(text)),
        mark.len() > 0 && (forall|i: int|
            0 <= i < mark.len() ==> '0' <= #[trigger] mark[i] <= '9') ==> bullet(
            mark + ". "@ + text,
        ) == Some(trim(text)),
{
    reveal_strlit("- ");
    reveal_strlit("* ");
    reveal_strlit(". ");
    let cut = lemma_trim(text);
    let a = "- "@ + text;
    let b = "* "@ + text;
    assert(a.subrange(0, 2) =~= "- "@);
    assert(b.subrange(0, 2) =~= "* "@);
    assert(a.skip(2) =~= text);
    assert(b.skip(2) =~= text);
    let c = mark + ". "@ + text;
    if mark.len() > 0 && (forall|i: int| 0 <= i < mark.len() ==> '0' <= #[trigger] mark[i] <= '9') {
        lemma_digits_of_mark(mark, ". "@ + text);
        assert(c =~= mark + (". "@ + text));
        assert(c.subrange(0, 2)[0] == c[0]);
        assert(c[0] == mark[0]);
        assert(c.skip((mark.len() + 2) as int) =~= text);
    }
}

proof fn lemma_digits_of_mark(mark: Seq<char>, rest: Seq<char>)
    requires
        forall|i: int| 0 <= i < mark.len() ==> '0' <= #[trigger] mark[i] <= '9',
        rest.len() > 0,
        !('0' <= rest[0] <= '9'),
    ensures
        leading_digits(mark + rest) == mark.len(),
    decreases mark.len(),
{
    let all = mark + rest;
    if mark.len() > 0 {
        assert(all[0] == mark[0]);
        assert(all.drop_first() =~= mark.drop_first() + rest);
        assert forall|i: int| 0 <= i < mark.drop_first().len() implies '0'
            <= #[trigger] mark.drop_first()[i] <= '9' by {
            assert(mark.drop_first()[i] == mark[i + 1]);
        }
        lemma_digits_of_mark(mark.drop_first(), rest);
    } else {
        assert(all =~= rest);
    }
}

/// A line without a mark is no list line.
pub proof fn law_list_lines_are_marked(line: Seq<char>)
    requires
        bullet(line) is Some,
    ensures
        line.len() > 1,
        line[0] == '-' || line[0] == '*' || '0' <= line[0] <= '9',
        trim(bullet(line)->0) == bullet(line)->0,
        bullet(line)->0.len() > 0,
        has_text(line, bullet(line)->0),
{
    reveal_strlit("- ");
    reveal_strlit("* ");
    let d = leading_digits(line) as int;
    let k: int = if "- "@.is_prefix_of(line) || "* "@.is_prefix_of(line) {
        2
    } else {
        d + 2
    };
    if "- "@.is_prefix_of(line) {
        assert(line.subrange(0, 2)[0] == '-');
    } else if "* "@.is_prefix_of(line) {
        assert(line.subrange(0, 2)[0] == '*');
    }
    let rest = line.skip(k);
    let cut = lemma_trim(rest);
    crate::text::lemma_trim_idempotent(rest);
    let p = bullet(line)->0;
    assert(line.subrange(k + cut.0, k + cut.1) =~= rest.subrange(cut.0, cut.1));
    assert(occurs_at(line, p, k + cut.0));
}

/// The points of a section with a list are its list lines, all of them and in
/// order; other lines between them are no points.
pub proof fn law_lists_are_read_line_by_line(
    lines: Seq<Seq<char>>,
    line: Seq<char>,
    summary: Seq<char>,
)
    ensures
        ({
            let listed = exists|i: int|
                0 <= i < lines.len() && bullet(#[trigger] lines[i]) is Some;
            let more = points_of(lines.push(line), summary);
            &&& bullet(line) matches Some(p) ==> listed ==> more == points_of(
                lines,
                summary,
            ).push(p)
            &&& bullet(line) matches Some(p) ==> !listed ==> more == seq![p]
            &&& bullet(line) is None && listed ==> more == points_of(lines, summary)
        }),
{
    let all = lines.push(line);
    assert(all.drop_last() =~= lines);
    if exists|i: int| 0 <= i < lines.len() && bullet(#[trigger] lines[i]) is Some {
        let i = choose|i: int| 0 <= i < lines.len() && bullet(#[trigger] lines[i]) is Some;
        lemma_some_bullet(lines, i);
    } else {
        lemma_no_bullets(lines);
        if let Some(p) = bullet(line) {
            assert(bullets(all) =~= seq![p]);
        }
    }
}

proof fn lemma_some_bullet(lines: Seq<Seq<char>>, i: int)
    requires
        0 <= i < lines.len(),
        bullet(lines[i]) is Some,
    ensures
        bullets(lines).len() > 0,
    decreases lines.len(),
{
    if i < lines.len() - 1 {
        assert(lines.drop_last()[i] == lines[i]);
        lemma_some_bullet(lines.drop_last(), i);
    }
}

/// A section that has no lines shows the summary, and an answer without
/// headings is one theme that does.
pub proof fn law_empty_sections_show_the_summary(
    body: Seq<char>,
    size: SynthesisSize,
    summary: Seq<char>,
)
    ensures
        points_of(Seq::empty(), summary) == seq![summary],
        outline(body).themes.len() == 0 ==> {
            let s = synthesis_of(body, size);
            &&& s.themes.len() == 1
            &&& s.themes[0].title == "Findings"@
            &&& s.themes[0].points == seq![s.summary]
            &&& s.themes[0].citations == s.citations
        },
{
    assert(bullets(Seq::empty()) =~= Seq::empty());
}

/// A heading opens a section, and the line below it is read into that section:
/// as a point of a list or as prose. The sections before it stay.
pub proof fn law_a_heading_opens_a_section(
    body: Seq<char>,
    title: Seq<char>,
    text: Seq<char>,
    size: SynthesisSize,
)
    requires
        !is_blank(title),
        !is_blank(text),
        !title.contains('\n'),
        !text.contains('\n'),
        !("## "@.is_prefix_of(trim(text))),
    ensures
        ({
            let longer = synthesis_of(
                body + seq!['\n'] + ("## "@ + title) + seq!['\n'] + text,
                size,
            );
            let n = outline(body).themes.len() as int;
            let last = longer.themes[n];
            &&& longer.themes.len() == n + 1
            &&& last.title == trim(title)
            &&& bullet(trim(text)) is None ==> last.points == seq![trim(text)]
            &&& bullet(trim(text)) matches Some(p) ==> last.points == seq![p]
            &&& forall|i: int|
                0 <= i < n ==> (#[trigger] longer.themes[i]).title == outline(body).themes[i].0
            &&& outline(body).summary.len() > 0 ==> longer.summary == summary_of(body)
        }),
{
    reveal_strlit("## ");
    let h = "## "@ + title;
    let all = body + seq!['\n'] + h + seq!['\n'] + text;
    let lines = split(body, '\n');
    assert(!h.contains('\n')) by {
        if h.contains('\n') {
            let k = choose|k: int| 0 <= k < h.len() && h[k] == '\n';
            if k >= 3 {
                assert(title[k - 3] == '\n');
            }
        }
    }
    lemma_whole_piece(h, '\n');
    lemma_whole_piece(text, '\n');
    law_splitting_goes_piece_by_piece(body, h, '\n');
    law_splitting_goes_piece_by_piece(body + seq!['\n'] + h, text, '\n');
    let two = lines.push(h);
    let three = two.push(text);
    assert(lines + seq![h] =~= two);
    assert(two + seq![text] =~= three);
    assert(split(all, '\n') == three);
    assert(three.drop_last() =~= two);
    assert(two.drop_last() =~= lines);
    let cut = lemma_trim(title);
    let before = title.take(cut.0);
    let t = trim(title);
    let after = title.skip(cut.1);
    assert(t.len() > 0);
    assert(is_blank(before)) by {
        assert forall|i: int| 0 <= i < before.len() implies is_white_space(#[trigger] before[i]) by {
            assert(before[i] == title[i]);
        }
    }
    assert(is_blank(after)) by {
        assert forall|i: int| 0 <= i < after.len() implies is_white_space(#[trigger] after[i]) by {
            assert(after[i] == title[cut.1 + i]);
        }
    }
    let kept = "## "@ + before + t;
    assert(Seq::<char>::empty() + kept + after =~= h);
    assert(kept[0] == '#');
    assert(kept.last() == t.last());
    law_trimming_takes_the_white_space_around(Seq::empty(), kept, after);
    assert(kept.subrange(0, 3) =~= "## "@);
    assert(kept.skip(3) =~= before + t + Seq::<char>::empty());
    law_trimming_takes_the_white_space_around(before, t, Seq::empty());
    assert(heading(trim(h)) == Some(t));
    let cut2 = lemma_trim(text);
    let y = trim(text);
    assert(y.len() > 0);
    assert(heading(y) is None);
    let o = outline_of(lines);
    let o2 = outline_of(two);
    let o3 = outline_of(three);
    assert(o2.themes == o.themes.push((t, Seq::empty())));
    assert(o2.themes.last() == (t, Seq::<Seq<char>>::empty()));
    assert(o3.themes =~= o.themes.push((t, seq![y]))) by {
        assert(o2.themes.drop_last() =~= o.themes);
        assert(Seq::<Seq<char>>::empty().push(y) =~= seq![y]);
    }
    assert(seq![y].drop_last() =~= Seq::<Seq<char>>::empty());
    reveal_with_fuel(bullets, 2);
    if let Some(p) = bullet(y) {
        assert(bullets(seq![y]) =~= seq![p]);
    } else {
        assert(join(seq![y], " "@) == y);
    }
}

proof fn lemma_outline_only_grows(lines: Seq<Seq<char>>, n: int)
    requires
        0 <= n <= lines.len(),
    ensures
        outline_of(lines.take(n)).summary.is_prefix_of(outline_of(lines).summary),
    decreases lines.len() - n,
{
    let a = outline_of(lines.take(n)).summary;
    if n == lines.len() {
        assert(lines.take(n) =~= lines);
        assert(a.subrange(0, a.len() as int) =~= a);
    } else {
        lemma_outline_only_grows(lines, n + 1);
        assert(lines.take(n + 1).drop_last() =~= lines.take(n));
        let b = outline_of(lines.take(n + 1)).summary;
        let c = outline_of(lines).summary;
        assert(b.subrange(0, a.len() as int) =~= a);
        assert(c.subrange(0, a.len() as int) =~= c.subrange(0, b.len() as int).subrange(
            0,
            a.len() as int,
        ));
    }
}

proof fn lemma_no_theme_before_a_heading(lines: Seq<Seq<char>>)
    requires
        forall|j: int| 0 <= j < lines.len() ==> !("## "@.is_prefix_of(trim(#[trigger] lines[j]))),
    ensures
        outline_of(lines).themes.len() == 0,
    decreases lines.len(),
{
    if lines.len() > 0 {
        assert(lines[lines.len() - 1] == lines.last());
        assert forall|j: int| 0 <= j < lines.drop_last().len() implies !("## "@.is_prefix_of(
            trim(#[trigger] lines.drop_last()[j]),
        )) by {
            assert(lines.drop_last()[j] == lines[j]);
        }
        lemma_no_theme_before_a_heading(lines.drop_last());
    }
}

/// Everything that an answer says before its first heading stands in the
/// summary.
pub proof fn law_the_introduction_is_the_summary(body: Seq<char>, size: SynthesisSize, i: int)
    requires
        0 <= i < split(body, '\n').len(),
        !is_blank(split(body, '\n')[i]),
        forall|j: int|
            0 <= j <= i ==> !("## "@.is_prefix_of(trim(#[trigger] split(body, '\n')[j]))),
    ensures
        has_text(synthesis_of(body, size).summary, trim(split(body, '\n')[i])),
{
    let lines = split(body, '\n');
    let some = lines.take(i + 1);
    let line = trim(lines[i]);
    let cut = lemma_trim(lines[i]);
    assert(some.drop_last() =~= lines.take(i));
    assert(some.last() == lines[i]);
    assert forall|j: int| 0 <= j < lines.take(i).len() implies !("## "@.is_prefix_of(
        trim(#[trigger] lines.take(i)[j]),
    )) by {
        assert(lines.take(i)[j] == lines[j]);
    }
    lemma_no_theme_before_a_heading(lines.take(i));
    assert(!("## "@.is_prefix_of(trim(lines[i]))));
    let a = outline_of(some).summary;
    let b = outline_of(lines).summary;
    assert(a.last() == line);
    lemma_outline_only_grows(lines, i + 1);
    let k = a.len() - 1;
    assert(b.subrange(0, a.len() as int)[k] == b[k]);
    assert(b[k] == line);
    lemma_join_has(b, " "@, k);
}

/// An answer that has nothing before its first heading is summed up by its
/// first words, two dozen at most.
pub proof fn law_the_first_words_sum_up(body: Seq<char>)
    requires
        outline(body).summary.len() == 0,
    ensures
        words(summary_of(body)).is_prefix_of(words(body)),
        words(summary_of(body)).len() == if words(body).len() < 24 {
            words(body).len()
        } else {
            24
        },
{
    let ws = words(body);
    let kept = if ws.len() > SUMMARY_WORDS {
        ws.take(SUMMARY_WORDS as int)
    } else {
        ws
    };
    crate::text::lemma_words(body);
    assert forall|i: int| 0 <= i < kept.len() implies crate::text::is_word(#[trigger] kept[i]) by {
        assert(kept[i] == ws[i]);
    }
    crate::text::lemma_words_join(kept);
    assert(ws.subrange(0, kept.len() as int) =~= kept);
}

proof fn lemma_links_shift(s: Seq<char>, k: int, cursor: int)
    requires
        0 <= k <= cursor,
        k <= s.len(),
    ensures
        links_from(s, cursor) == links_from(s.skip(k), cursor - k),
    decreases s.len() - cursor,
{
    let t = s.skip(k);
    link_positions(s, cursor);
    link_positions(t, cursor - k);
    if cursor < s.len() {
        lemma_find_shift(s, seq!['['], k, cursor);
        if let Some(open) = find_from(s, seq!['['], cursor) {
            lemma_find_shift(s, seq![']'], k, open);
            if let Some(close) = find_from(s, seq![']'], open) {
                if close + 1 >= s.len() || s[close + 1] != '(' {
                    lemma_links_shift(s, k, close + 1);
                } else {
                    lemma_find_shift(s, seq![')'], k, close + 2);
                    if let Some(end) = find_from(s, seq![')'], close + 2) {
                        lemma_links_shift(s, k, end + 1);
                        assert(t.subrange(close - k + 2, end - k) =~= s.subrange(close + 2, end));
                        assert(t.subrange(open - k + 1, close - k) =~= s.subrange(open + 1, close));
                    }
                }
            }
        }
    }
}

/// A link in an answer is a citation: its target is the URL and its label the
/// title, unless the label is blank. What stands before the first link adds
/// none, and what stands behind a link is read likewise.
pub proof fn law_links_are_citations(
    before: Seq<char>,
    label: Seq<char>,
    target: Seq<char>,
    rest: Seq<char>,
)
    requires
        !before.contains('['),
        !label.contains(']'),
        !target.contains(')'),
        is_citable(trim(target)),
    ensures
        ({
            let all = links(
                before + seq!['['] + label + seq![']', '('] + target + seq![')'] + rest,
            );
            &&& all.len() == 1 + links(rest).len()
            &&& all[0].url == trim(target)
            &&& is_blank(label) ==> all[0].title is None
            &&& !is_blank(label) ==> all[0].title == Some(trim(label))
            &&& all.drop_first() == links(rest)
        }),
{
    let s = before + seq!['['] + label + seq![']', '('] + target + seq![')'] + rest;
    let open = before.len() as int;
    let close = open + 1 + label.len();
    let end = close + 2 + target.len();
    assert forall|j: int| 0 <= j < open implies s[j] != '[' by {
        assert(s[j] == before[j]);
        assert(before.contains(before[j]));
    }
    assert(s[open] == '[');
    lemma_find_is(s, '[', 0, open);
    assert(s[close] == ']');
    assert(s[close + 1] == '(');
    assert forall|j: int| open <= j < close implies s[j] != ']' by {
        if j > open {
            assert(s[j] == label[j - open - 1]);
            assert(label.contains(label[j - open - 1]));
        }
    }
    lemma_find_is(s, ']', open, close);
    assert(s[end] == ')');
    assert forall|j: int| close + 2 <= j < end implies s[j] != ')' by {
        assert(s[j] == target[j - close - 2]);
        assert(target.contains(target[j - close - 2]));
    }
    lemma_find_is(s, ')', close + 2, end);
    assert(s.subrange(close + 2, end) =~= target);
    assert(s.subrange(open + 1, close) =~= label);
    assert(s.skip(end + 1) =~= rest);
    lemma_links_shift(s, end + 1, end + 1);
    let cut = lemma_trim(label);
    link_positions(s, 0);
    let first = CitationView { url: trim(target), title: link_title(label) };
    assert(links(s) == seq![first] + links(rest));
    assert(links(s).drop_first() =~= links(rest));
}

/// The citations of an answer are its links in their order, of those with one
/// URL the first.
pub proof fn law_the_first_link_to_a_page_counts(body: Seq<char>, size: SynthesisSize)
    ensures
        ({
            let s = synthesis_of(body, size);
            forall|i: int|
                #![trigger s.citations[i]]
                0 <= i < s.citations.len() ==> exists|k: int|
                    #![trigger links(body)[k]]
                    0 <= k < links(body).len() && links(body)[k] == s.citations[i] && (forall|
                        j: int,
                    |
                        0 <= j < k ==> (#[trigger] links(body)[j]).url != s.citations[i].url) && (
                    forall|j: int|
                        0 <= j < i ==> cites(
                            links(body).take(k),
                            (#[trigger] s.citations[j]).url,
                        ))
        }),
{
    lemma_deduped_first(links(body));
}

proof fn lemma_deduped_cites(all: Seq<CitationView>, url: Seq<char>)
    ensures
        cites(deduped(all), url) <==> cites(all, url),
    decreases all.len(),
{
    if all.len() > 0 {
        let front = all.drop_last();
        lemma_deduped_cites(front, url);
        assert(front.push(all.last()) =~= all);
        lemma_cites_push(front, all.last(), url);
        lemma_cites_push(deduped(front), all.last(), url);
    }
}

proof fn lemma_deduped_first(all: Seq<CitationView>)
    ensures
        forall|i: int|
            #![trigger deduped(all)[i]]
            0 <= i < deduped(all).len() ==> exists|k: int|
                #![trigger all[k]]
                0 <= k < all.len() && all[k] == deduped(all)[i] && (forall|j: int|
                    0 <= j < k ==> (#[trigger] all[j]).url != deduped(all)[i].url) && (forall|
                    j: int,
                |
                    0 <= j < i ==> cites(all.take(k), (#[trigger] deduped(all)[j]).url)),
    decreases all.len(),
{
    if all.len() > 0 {
        let front = all.drop_last();
        let before = deduped(front);
        let d = deduped(all);
        let n = front.len() as int;
        lemma_deduped_first(front);
        assert forall|i: int| #![trigger d[i]] 0 <= i < d.len() implies exists|k: int|
            #![trigger all[k]]
            0 <= k < all.len() && all[k] == d[i] && (forall|j: int|
                0 <= j < k ==> (#[trigger] all[j]).url != d[i].url) && (forall|j: int|
                0 <= j < i ==> cites(all.take(k), (#[trigger] d[j]).url)) by {
            if i < before.len() {
                assert(d[i] == before[i]);
                let k = choose|k: int|
                    #![trigger front[k]]
                    0 <= k < front.len() && front[k] == before[i] && (forall|j: int|
                        0 <= j < k ==> (#[trigger] front[j]).url != before[i].url) && (forall|
                        j: int,
                    |
                        0 <= j < i ==> cites(front.take(k), (#[trigger] before[j]).url));
                assert(all[k] == front[k]);
                assert forall|j: int| 0 <= j < k implies (#[trigger] all[j]).url != d[i].url by {
                    assert(all[j] == front[j]);
                }
                assert(all.take(k) =~= front.take(k));
                assert forall|j: int| 0 <= j < i implies cites(
                    all.take(k),
                    (#[trigger] d[j]).url,
                ) by {
                    assert(d[j] == before[j]);
                }
            } else {
                assert(all[n] == d[i]);
                assert(all.take(n) =~= front);
                assert forall|j: int| 0 <= j < n implies (#[trigger] all[j]).url != d[i].url by {
                    if all[j].url == d[i].url {
                        assert(front[j].url == d[i].url);
                        assert(cites(front, d[i].url));
                        lemma_deduped_cites(front, d[i].url);
                    }
                }
                assert forall|j: int| 0 <= j < i implies cites(
                    all.take(n),
                    (#[trigger] d[j]).url,
                ) by {
                    assert(d[j] == before[j]);
                    assert(cites(before, d[j].url));
                    lemma_deduped_cites(front, d[j].url);
                }
            }
        }
    }
}

/// A section cites the pages that it links to: every link in it to a page that
/// the answer cites, and no other.
pub proof fn law_sections_cite_what_they_link_to(
    lines: Seq<Seq<char>>,
    title: Seq<char>,
    summary: Seq<char>,
    all: Seq<CitationView>,
    url: Seq<char>,
)
    ensures
        cites(section_of((title, lines), summary, all).citations, url) <==> cites(
            links(join(lines, "\n"@)),
            url,
        ) && cites(all, url),
        section_of((title, lines), summary, all).title == title,
{
    lemma_known_cites(links(join(lines, "\n"@)), all, url);
}

proof fn lemma_citation_exists(all: Seq<CitationView>, url: Seq<char>)
    ensures
        citation_of(all, url) is Some <==> cites(all, url),
        citation_of(all, url) matches Some(c) ==> c.url == url,
    decreases all.len(),
{
    if all.len() > 0 {
        let rest = all.drop_first();
        lemma_citation_exists(rest, url);
        if all[0].url != url {
            if cites(all, url) {
                let k = choose|k: int| 0 <= k < all.len() && (#[trigger] all[k]).url == url;
                assert(rest[k - 1].url == url);
            }
            if cites(rest, url) {
                let k = choose|k: int| 0 <= k < rest.len() && (#[trigger] rest[k]).url == url;
                assert(all[k + 1].url == url);
            }
        }
    }
}

proof fn lemma_known_cites(local: Seq<CitationView>, all: Seq<CitationView>, url: Seq<char>)
    ensures
        cites(known_citations(local, all), url) <==> cites(local, url) && cites(all, url),
    decreases local.len(),
{
    if local.len() > 0 {
        let front = local.drop_last();
        let last = local.last();
        lemma_known_cites(front, all, url);
        lemma_citation_exists(all, last.url);
        assert(front.push(last) =~= local);
        lemma_cites_push(front, last, url);
        if let Some(c) = citation_of(all, last.url) {
            lemma_cites_push(known_citations(front, all), c, url);
        }
    }
}

/// Brackets that are no link are passed over, and so is a link that cannot be
/// cited: what stands behind them is still read.
pub proof fn law_other_brackets_are_passed_over(
    before: Seq<char>,
    label: Seq<char>,
    target: Seq<char>,
    rest: Seq<char>,
)
    requires
        !before.contains('['),
        !label.contains(']'),
        !target.contains(')'),
    ensures
        rest.len() == 0 || rest[0] != '(' ==> links(before + seq!['['] + label + seq![']'] + rest)
            == links(rest),
        !is_citable(trim(target)) ==> links(
            before + seq!['['] + label + seq![']', '('] + target + seq![')'] + rest,
        ) == links(rest),
        links(before).len() == 0,
{
    let open = before.len() as int;
    let close = open + 1 + label.len();
    if rest.len() == 0 || rest[0] != '(' {
        let s = before + seq!['['] + label + seq![']'] + rest;
        lemma_bracket(s, before, label);
        assert(s.skip(close + 1) =~= rest);
        lemma_links_shift(s, close + 1, close + 1);
        if rest.len() > 0 {
            assert(s[close + 1] == rest[0]);
        }
        link_positions(s, 0);
        assert(links(s) == links_from(s, close + 1));
    }
    if !is_citable(trim(target)) {
        let s = before + seq!['['] + label + seq![']', '('] + target + seq![')'] + rest;
        let end = close + 2 + target.len();
        lemma_bracket(s, before, label);
        assert(s[close + 1] == '(');
        assert(s[end] == ')');
        assert forall|j: int| close + 2 <= j < end implies s[j] != ')' by {
            assert(s[j] == target[j - close - 2]);
            assert(target.contains(target[j - close - 2]));
        }
        lemma_find_is(s, ')', close + 2, end);
        assert(s.subrange(close + 2, end) =~= target);
        assert(s.skip(end + 1) =~= rest);
        lemma_links_shift(s, end + 1, end + 1);
        link_positions(s, 0);
    }
    lemma_find_from(before, seq!['['], 0);
    if let Some(i) = find_from(before, seq!['['], 0) {
        assert(before.subrange(i, i + 1)[0] == before[i]);
        assert(before.contains(before[i]));
    }
}

proof fn lemma_bracket(s: Seq<char>, before: Seq<char>, label: Seq<char>)
    requires
        !before.contains('['),
        !label.contains(']'),
        (before + seq!['['] + label + seq![']']).is_prefix_of(s),
    ensures
        find_from(s, seq!['['], 0) == Some(before.len() as int),
        find_from(s, seq![']'], before.len() as int) == Some(
            before.len() as int + 1 + label.len(),
        ),
{
    let head = before + seq!['['] + label + seq![']'];
    let open = before.len() as int;
    let close = open + 1 + label.len();
    assert forall|j: int| 0 <= j < head.len() implies s[j] == head[j] by {
        assert(s.subrange(0, head.len() as int)[j] == head[j]);
    }
    assert forall|j: int| 0 <= j < open implies s[j] != '[' by {
        assert(head[j] == before[j]);
        assert(before.contains(before[j]));
    }
    assert(head[open] == '[');
    lemma_find_is(s, '[', 0, open);
    assert(head[close] == ']');
    assert forall|j: int| open <= j < close implies s[j] != ']' by {
        if j > open {
            assert(head[j] == label[j - open - 1]);
            assert(label.contains(label[j - open - 1]));
        }
    }
    lemma_find_is(s, ']', open, close);
}

/// Only addresses of the web without white space can be cited.
pub proof fn law_only_addresses_are_cited(target: Seq<char>, i: int)
    ensures
        0 <= i < target.len() && is_white_space(target[i]) ==> !is_citable(target),
        !is_web_url(target) ==> !is_citable(target),
        is_web_url(target) && (forall|k: int|
            0 <= k < target.len() ==> !is_white_space(#[trigger] target[k])) ==> is_citable(target),
{
}

/// One more line of an answer belongs to the last heading before it, behind
/// the lines that are there already, and to the introduction where there is
/// none. A blank line, or a heading without a title, changes nothing.
pub proof fn law_lines_belong_to_the_last_heading(body: Seq<char>, text: Seq<char>)
    requires
        !text.contains('\n'),
    ensures
        ({
            let before = outline(body);
            let after = outline(body + seq!['\n'] + text);
            let line = trim(text);
            let n = before.themes.len() as int;
            &&& line.len() == 0 ==> after == before
            &&& line.len() > 0 && !("## "@.is_prefix_of(line)) && n == 0 ==> {
                &&& after.summary == before.summary.push(line)
                &&& after.themes.len() == 0
            }
            &&& line.len() > 0 && !("## "@.is_prefix_of(line)) && n > 0 ==> {
                &&& after.summary == before.summary
                &&& after.themes.len() == n
                &&& after.themes[n - 1].0 == before.themes[n - 1].0
                &&& after.themes[n - 1].1 == before.themes[n - 1].1.push(line)
                &&& forall|i: int|
                    0 <= i < n - 1 ==> #[trigger] after.themes[i] == before.themes[i]
            }
            &&& "## "@.is_prefix_of(line) && is_blank(line.skip(3)) ==> after == before
            &&& "## "@.is_prefix_of(line) && !is_blank(line.skip(3)) ==> {
                &&& after.summary == before.summary
                &&& after.themes == before.themes.push((trim(line.skip(3)), Seq::empty()))
            }
        }),
{
    let lines = split(body, '\n');
    let more = split(body + seq!['\n'] + text, '\n');
    law_splitting_goes_piece_by_piece(body, text, '\n');
    lemma_whole_piece(text, '\n');
    assert(more =~= lines.push(text));
    assert(more.drop_last() =~= lines);
    assert(more.last() == text);
    let line = trim(text);
    reveal_strlit("## ");
    if "## "@.is_prefix_of(line) {
        let cut = lemma_trim(line.skip(3));
    }
}

/// The summary is the introduction: its lines in their order, with one blank
/// between them and nothing else.
pub proof fn law_the_introduction_is_kept_in_order(body: Seq<char>)
    requires
        outline(body).summary.len() > 0,
    ensures
        ({
            let lines = outline(body).summary;
            let s = summary_of(body);
            let n = lines.len() as int;
            &&& s.len() == length_to(lines, n) + n - 1
            &&& forall|i: int|
                #![trigger lines[i]]
                0 <= i < n ==> occurs_at(s, lines[i], length_to(lines, i) + i)
        }),
{
    let lines = outline(body).summary;
    reveal_strlit(" ");
    law_joining_loses_nothing(lines, " "@);
    assert forall|i: int| #![trigger lines[i]] 0 <= i < lines.len() implies occurs_at(
        summary_of(body),
        lines[i],
        length_to(lines, i) + i,
    ) by {
        assert(i * 1 == i) by (nonlinear_arith);
    }
    assert((lines.len() - 1) * 1 == lines.len() - 1) by (nonlinear_arith);
}

/// A section cites a page once, in the order of its links, and under the title
/// that the answer cites it with.
pub proof fn law_sections_cite_a_page_once(
    local: Seq<CitationView>,
    link: CitationView,
    all: Seq<CitationView>,
)
    ensures
        ({
            let before = known_citations(local, all);
            let after = known_citations(local.push(link), all);
            &&& cites(local, link.url) || !cites(all, link.url) ==> after == before
            &&& !cites(local, link.url) && cites(all, link.url) ==> after.len() == before.len() + 1
                && after.drop_last() == before && after.last().url == link.url && all.contains(
                after.last(),
            )
        }),
{
    let more = local.push(link);
    assert(more.drop_last() =~= local);
    assert(more.last() == link);
    lemma_citation_exists(all, link.url);
    if let Some(c) = citation_of(all, link.url) {
        lemma_citation_is_member(all, link.url);
        assert(known_citations(local, all).push(c).drop_last() =~= known_citations(local, all));
    }
}

} // verus!
