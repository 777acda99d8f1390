//! The answer of a research run, as clients see it.

use vstd::prelude::*;
use crate::json::Json;
use crate::shared::gateway::reply::TokenUsage;
use crate::shared::session::SessionUsage;
use crate::shared::types::synthesis::{Citation, Synthesis, SynthesisSize, ThemeSection};
use crate::text::decimal_text;
#[allow(unused_imports)]
use crate::json::{empty_object, texts_view, JsonView};
#[allow(unused_imports)]
use crate::shared::types::synthesis::{size_name, CitationView, SectionView, SynthesisView};
#[allow(unused_imports)]
use crate::text::{decimal, has_text, lemma_has_middle, lemma_has_more, lemma_has_through,
    lemma_views_empty, lemma_views_push, opt_view, views};

verus! {

/// One citation, in document order.
#[derive(Debug, Clone, PartialEq, Eq)]
pub struct CitationDTO {
    pub url: String,
    pub title: Option<String>,
}

impl View for CitationDTO {
    type V = CitationView;

    open spec fn view(&self) -> CitationView {
        CitationView { url: self.url@, title: opt_view(self.title) }
    }
}

/// One section of the answer.
#[derive(Debug, Clone)]
pub struct ThemeDTO {
    pub title: String,
    pub points: Vec<String>,
    pub citations: Vec<CitationDTO>,
}

impl View for ThemeDTO {
    type V = SectionView;

    open spec fn view(&self) -> SectionView {
        SectionView {
            title: self.title@,
            points: views(self.points@),
            citations: views(self.citations@),
        }
    }
}

/// The final answer; it says what the synthesis says.
#[derive(Debug, Clone)]
pub struct SynthesisDTO {
    pub size: SynthesisSize,
    pub summary: String,
    pub themes: Vec<ThemeDTO>,
    pub citations: Vec<CitationDTO>,
}

impl View for SynthesisDTO {
    type V = SynthesisView;

    open spec fn view(&self) -> SynthesisView {
        SynthesisView {
            size: self.size,
            summary: self.summary@,
            themes: views(self.themes@),
            citations: views(self.citations@),
        }
    }
}

/// Token counts of a whole run.
#[derive(Debug, Clone, Copy, PartialEq, Eq, Structural)]
pub struct UsageDTO {
    pub prompt_tokens: u64,
    pub completion_tokens: u64,
    pub total_tokens: u64,
    pub reasoning_tokens: u64,
}

/// The answer of a research run.
#[derive(Debug, Clone)]
pub struct ResearchResponse {
    pub session_id: String,
    pub synthesis: SynthesisDTO,
    pub turns_used: u32,
    pub evidence_urls: Vec<String>,
    pub usage: UsageDTO,
}

/// What a response says.
#[verifier::ext_equal]
pub struct ResponseView {
    pub session_id: Seq<char>,
    pub synthesis: SynthesisView,
    pub turns_used: u32,
    pub evidence_urls: Seq<Seq<char>>,
    pub usage: UsageDTO,
}

impl View for ResearchResponse {
    type V = ResponseView;

    open spec fn view(&self) -> ResponseView {
        ResponseView {
            session_id: self.session_id@,
            synthesis: self.synthesis@,
            turns_used: self.turns_used,
            evidence_urls: views(self.evidence_urls@),
            usage: self.usage,
        }
    }
}

impl From<Citation> for CitationDTO {
    fn from(citation: Citation) -> (r: Self)
        ensures
            r@ == citation@,
    {
        CitationDTO { url: citation.url, title: citation.title }
    }
}

impl vstd::std_specs::convert::FromSpecImpl<Citation> for CitationDTO {
    open spec fn obeys_from_spec() -> bool {
        true
    }

    open spec fn from_spec(citation: Citation) -> Self {
        CitationDTO { url: citation.url, title: citation.title }
    }
}

impl From<TokenUsage> for UsageDTO {
    fn from(usage: TokenUsage) -> (r: Self) {
        UsageDTO {
            prompt_tokens: usage.prompt_tokens,
            completion_tokens: usage.completion_tokens,
            total_tokens: usage.total_tokens,
            reasoning_tokens: usage.reasoning_tokens,
        }
    }
}

impl vstd::std_specs::convert::FromSpecImpl<TokenUsage> for UsageDTO {
    open spec fn obeys_from_spec() -> bool {
        true
    }

    open spec fn from_spec(usage: TokenUsage) -> Self {
        UsageDTO {
            prompt_tokens: usage.prompt_tokens,
            completion_tokens: usage.completion_tokens,
            total_tokens: usage.total_tokens,
            reasoning_tokens: usage.reasoning_tokens,
        }
    }
}

impl From<UsageDTO> for SessionUsage {
    fn from(usage: UsageDTO) -> (r: Self) {
        SessionUsage {
            prompt_tokens: usage.prompt_tokens,
            completion_tokens: usage.completion_tokens,
            total_tokens: usage.total_tokens,
            reasoning_tokens: usage.reasoning_tokens,
        }
    }
}

impl vstd::std_specs::convert::FromSpecImpl<UsageDTO> for SessionUsage {
    open spec fn obeys_from_spec() -> bool {
        true
    }

    open spec fn from_spec(usage: UsageDTO) -> Self {
        SessionUsage {
            prompt_tokens: usage.prompt_tokens,
            completion_tokens: usage.completion_tokens,
            total_tokens: usage.total_tokens,
            reasoning_tokens: usage.reasoning_tokens,
        }
    }
}

/// The citations, in order.
fn citations_from(citations: Vec<Citation>) -> (r: Vec<CitationDTO>)
    ensures
        views(r@) == views(citations@),
{
    broadcast use {lemma_views_push, lemma_views_empty};

    let ghost all = views(citations@);
    let mut out: Vec<CitationDTO> = Vec::new();
    for citation in it: citations
        invariant
            all == views(it.seq()),
            views(out@) == all.take(it.index() as int),
    {
        let ghost so_far = views(out@);
        let ghost shown = citation@;
        out.push(CitationDTO::from(citation));
        assert(views(out@) == so_far.push(shown));
        assert(views(out@) =~= all.take(it.index() + 1));
    }
    assert(views(out@) =~= all);
    out
}

impl ThemeDTO {
    /// The section, as clients see it.
    pub fn from_section(section: ThemeSection) -> (r: ThemeDTO)
        ensures
            r@ == section@,
    {
        ThemeDTO {
            title: section.title,
            points: section.points,
            citations: citations_from(section.citations),
        }
    }
}

impl SynthesisDTO {
    /// The synthesis, as clients see it.
    pub fn from_synthesis(synthesis: Synthesis) -> (r: SynthesisDTO)
        ensures
            r@ == synthesis@,
    {
        broadcast use {lemma_views_push, lemma_views_empty};

        let ghost all = views(synthesis.themes@);
        let mut themes: Vec<ThemeDTO> = Vec::new();
        for section in it: synthesis.themes
            invariant
                all == views(it.seq()),
                views(themes@) == all.take(it.index() as int),
        {
            let ghost so_far = views(themes@);
            let ghost shown = section@;
            themes.push(ThemeDTO::from_section(section));
            assert(views(themes@) == so_far.push(shown));
            assert(views(themes@) =~= all.take(it.index() + 1));
        }
        assert(views(themes@) =~= all);
        SynthesisDTO {
            size: synthesis.size,
            summary: synthesis.summary,
            themes,
            citations: citations_from(synthesis.citations),
        }
    }
}

/// A citation as JSON; one without a title has no such field.
pub open spec fn citation_json(c: CitationView) -> JsonView {
    let head = empty_object().with("url"@, JsonView::Text(c.url));
    match c.title {
        Some(title) => head.with("title"@, JsonView::Text(title)),
        None => head,
    }
}

/// Citations as JSON.
pub open spec fn citations_json(citations: Seq<CitationView>) -> JsonView {
    JsonView::Array(Seq::new(citations.len(), |i: int| citation_json(citations[i])))
}

/// A section as JSON.
pub open spec fn section_json(s: SectionView) -> JsonView {
    empty_object().with("title"@, JsonView::Text(s.title)).with("points"@, texts_view(s.points)).with(
        "citations"@,
        citations_json(s.citations),
    )
}

/// A synthesis as JSON.
pub open spec fn synthesis_json(s: SynthesisView) -> JsonView {
    empty_object().with("size"@, JsonView::Text(size_name(s.size))).with(
        "summary"@,
        JsonView::Text(s.summary),
    ).with(
        "themes"@,
        JsonView::Array(Seq::new(s.themes.len(), |i: int| section_json(s.themes[i]))),
    ).with("citations"@, citations_json(s.citations))
}

/// Token counts as JSON.
pub open spec fn usage_json(u: UsageDTO) -> JsonView {
    empty_object().with("prompt_tokens"@, JsonView::Number(u.prompt_tokens as nat)).with(
        "completion_tokens"@,
        JsonView::Number(u.completion_tokens as nat),
    ).with("total_tokens"@, JsonView::Number(u.total_tokens as nat)).with(
        "reasoning_tokens"@,
        JsonView::Number(u.reasoning_tokens as nat),
    )
}

impl ResponseView {
    /// The response as JSON.
    pub open spec fn json(self) -> JsonView {
        empty_object().with("session_id"@, JsonView::Text(self.session_id)).with(
            "synthesis"@,
            synthesis_json(self.synthesis),
        ).with("turns_used"@, JsonView::Number(self.turns_used as nat)).with(
            "evidence_urls"@,
            texts_view(self.evidence_urls),
        ).with("usage"@, usage_json(self.usage))
    }
}

impl CitationDTO {
    /// The citation as JSON; one without a title has no such field.
    pub fn to_json(&self) -> (r: Json)
        ensures
            r@ == citation_json(self@),
    {
        let head = Json::object().with("url", Json::text(self.url.as_str()));
        match &self.title {
            Some(title) => head.with("title", Json::text(title.as_str())),
            None => head,
        }
    }
}

fn citations_to_json(citations: &[CitationDTO]) -> (r: Json)
    ensures
        r@ == citations_json(views(citations@)),
{
    broadcast use {lemma_views_push, lemma_views_empty};

    let ghost all = citations_json(views(citations@))->Array_0;
    let mut items: Vec<Json> = Vec::new();
    let mut i: usize = 0;
    while i < citations.len()
        invariant
            i <= citations@.len(),
            all == citations_json(views(citations@))->Array_0,
            views(items@) == all.take(i as int),
        decreases citations@.len() - i,
    {
        let ghost so_far = views(items@);
        items.push(citations[i].to_json());
        assert(views(items@) == so_far.push(all[i as int]));
        i += 1;
        assert(views(items@) =~= all.take(i as int));
    }
    assert(views(items@) =~= all);
    Json::array(items)
}

impl ThemeDTO {
    /// The section as JSON.
    pub fn to_json(&self) -> (r: Json)
        ensures
            r@ == section_json(self@),
    {
        Json::object().with("title", Json::text(self.title.as_str())).with(
            "points",
            Json::texts(self.points.as_slice()),
        ).with("citations", citations_to_json(self.citations.as_slice()))
    }
}

impl SynthesisDTO {
    /// The synthesis as JSON.
    pub fn to_json(&self) -> (r: Json)
        ensures
            r@ == synthesis_json(self@),
    {
        broadcast use {lemma_views_push, lemma_views_empty};

        let ghost sections = views(self.themes@);
        let ghost all = Seq::new(sections.len(), |i: int| section_json(sections[i]));
        let mut items: Vec<Json> = Vec::new();
        let mut i: usize = 0;
        while i < self.themes.len()
            invariant
                i <= self.themes@.len(),
                sections == views(self.themes@),
                all == Seq::new(sections.len(), |i: int| section_json(sections[i])),
                views(items@) == all.take(i as int),
            decreases self.themes@.len() - i,
        {
            let ghost so_far = views(items@);
            items.push(self.themes[i].to_json());
            assert(views(items@) == so_far.push(all[i as int]));
            i += 1;
            assert(views(items@) =~= all.take(i as int));
        }
        assert(views(items@) =~= all);
        Json::object().with("size", Json::text(self.size.as_str())).with(
            "summary",
            Json::text(self.summary.as_str()),
        ).with("themes", Json::array(items)).with(
            "citations",
            citations_to_json(self.citations.as_slice()),
        )
    }
}

impl UsageDTO {
    /// The counts as JSON.
    pub fn to_json(&self) -> (r: Json)
        ensures
            r@ == usage_json(*self),
    {
        Json::object().with("prompt_tokens", Json::Number(self.prompt_tokens)).with(
            "completion_tokens",
            Json::Number(self.completion_tokens),
        ).with("total_tokens", Json::Number(self.total_tokens)).with(
            "reasoning_tokens",
            Json::Number(self.reasoning_tokens),
        )
    }
}

impl ResearchResponse {
    /// The response as JSON.
    pub fn to_json(&self) -> (r: Json)
        ensures
            r@ == self@.json(),
    {
        Json::object().with("session_id", Json::text(self.session_id.as_str())).with(
            "synthesis",
            self.synthesis.to_json(),
        ).with("turns_used", Json::Number(self.turns_used as u64)).with(
            "evidence_urls",
            Json::texts(self.evidence_urls.as_slice()),
        ).with("usage", self.usage.to_json())
    }
}

/// The points, each on a line of its own behind a dash.
pub open spec fn points_text(points: Seq<Seq<char>>) -> Seq<char>
    decreases points.len(),
{
    if points.len() == 0 {
        Seq::empty()
    } else {
        points_text(points.drop_last()) + "- "@ + points.last() + "\n"@
    }
}

/// The sections, each with its heading, its points and an empty line.
pub open spec fn themes_text(themes: Seq<SectionView>) -> Seq<char>
    decreases themes.len(),
{
    if themes.len() == 0 {
        Seq::empty()
    } else {
        themes_text(themes.drop_last()) + "## "@ + themes.last().title + "\n\n"@ + points_text(
            themes.last().points,
        ) + "\n"@
    }
}

/// The citations as a numbered list of links; the URL stands for a missing
/// title.
pub open spec fn sources_text(citations: Seq<CitationView>) -> Seq<char>
    decreases citations.len(),
{
    if citations.len() == 0 {
        Seq::empty()
    } else {
        let c = citations.last();
        sources_text(citations.drop_last()) + decimal(citations.len()) + ". ["@ + match c.title {
            Some(title) => title,
            None => c.url,
        } + "]("@ + c.url + ")\n"@
    }
}

/// A synthesis as text for people.
pub open spec fn rendered(s: SynthesisView) -> Seq<char> {
    s.summary + "\n\n"@ + themes_text(s.themes) + "Sources:\n"@ + sources_text(s.citations)
}

fn push_points(out: &mut String, points: &[String])
    ensures
        final(out)@ == old(out)@ + points_text(views(points@)),
{
    let ghost start = out@;
    let ghost all = views(points@);
    let mut i: usize = 0;
    assert(out@ =~= start + points_text(all.take(0)));
    while i < points.len()
        invariant
            i <= points@.len(),
            all == views(points@),
            out@ == start + points_text(all.take(i as int)),
        decreases points@.len() - i,
    {
        out.append("- ");
        out.append(points[i].as_str());
        out.append("\n");
        i += 1;
        assert(all.take(i as int).drop_last() =~= all.take(i - 1));
        assert(out@ =~= start + points_text(all.take(i as int)));
    }
    assert(all.take(i as int) =~= all);
}

fn push_themes(out: &mut String, themes: &[ThemeDTO])
    ensures
        final(out)@ == old(out)@ + themes_text(views(themes@)),
{
    let ghost start = out@;
    let ghost all = views(themes@);
    let mut i: usize = 0;
    assert(out@ =~= start + themes_text(all.take(0)));
    while i < themes.len()
        invariant
            i <= themes@.len(),
            all == views(themes@),
            out@ == start + themes_text(all.take(i as int)),
        decreases themes@.len() - i,
    {
        out.append("## ");
        out.append(themes[i].title.as_str());
        out.append("\n\n");
        push_points(out, themes[i].points.as_slice());
        out.append("\n");
        i += 1;
        assert(all.take(i as int).drop_last() =~= all.take(i - 1));
        assert(out@ =~= start + themes_text(all.take(i as int)));
    }
    assert(all.take(i as int) =~= all);
}

fn push_sources(out: &mut String, citations: &[CitationDTO])
    ensures
        final(out)@ == old(out)@ + sources_text(views(citations@)),
{
    let ghost start = out@;
    let ghost all = views(citations@);
    let mut i: usize = 0;
    assert(out@ =~= start + sources_text(all.take(0)));
    while i < citations.len()
        invariant
            i <= citations@.len(),
            all == views(citations@),
            out@ == start + sources_text(all.take(i as int)),
        decreases citations@.len() - i,
    {
        let citation = &citations[i];
        i += 1;
        let number = decimal_text(i as u64);
        out.append(number.as_str());
        out.append(". [");
        match &citation.title {
            Some(title) => {
                out.append(title.as_str());
            },
            None => {
                out.append(citation.url.as_str());
            },
        }
        out.append("](");
        out.append(citation.url.as_str());
        out.append(")\n");
        assert(all.take(i as int).drop_last() =~= all.take(i - 1));
        assert(all.take(i as int).last() == citation@);
        assert(out@ =~= start + sources_text(all.take(i as int)));
    }
    assert(all.take(i as int) =~= all);
}

/// The response as text for people: the summary, the sections with their
/// points, and the numbered sources.
pub fn render(response: &ResearchResponse) -> (r: String)
    ensures
        r@ == rendered(response@.synthesis),
{
    let mut out = response.synthesis.summary.clone();
    out.append("\n\n");
    push_themes(&mut out, response.synthesis.themes.as_slice());
    out.append("Sources:\n");
    push_sources(&mut out, response.synthesis.citations.as_slice());
    out
}

/// The field names of a synthesis are told apart.
proof fn lemma_response_names()
    ensures
        "url"@.len() == 3,
        "title"@.len() == 5,
        "points"@.len() == 6,
        "citations"@.len() == 9,
        "size"@.len() == 4,
        "summary"@.len() == 7,
        "themes"@.len() == 6,
        "session_id"@.len() == 10,
        "synthesis"@.len() == 9,
        "turns_used"@.len() == 10 && "turns_used"@[0] == 't' && "session_id"@[0] == 's',
        "evidence_urls"@.len() == 13,
        "usage"@.len() == 5,
        "prompt_tokens"@.len() == 13,
        "completion_tokens"@.len() == 17,
        "total_tokens"@.len() == 12,
        "reasoning_tokens"@.len() == 16,
{
    reveal_strlit("url");
    reveal_strlit("title");
    reveal_strlit("points");
    reveal_strlit("citations");
    reveal_strlit("size");
    reveal_strlit("summary");
    reveal_strlit("themes");
    reveal_strlit("session_id");
    reveal_strlit("synthesis");
    reveal_strlit("turns_used");
    reveal_strlit("evidence_urls");
    reveal_strlit("usage");
    reveal_strlit("prompt_tokens");
    reveal_strlit("completion_tokens");
    reveal_strlit("total_tokens");
    reveal_strlit("reasoning_tokens");
}

/// Whether a JSON array holds these texts.
pub open spec fn holds_texts(value: Option<JsonView>, texts: Seq<Seq<char>>) -> bool {
    value matches Some(JsonView::Array(items)) && items.len() == texts.len() && forall|i: int|
        0 <= i < items.len() ==> #[trigger] items[i] == JsonView::Text(texts[i])
}

/// Whether a JSON array holds these citations.
pub open spec fn holds_citations(value: Option<JsonView>, citations: Seq<CitationView>) -> bool {
    value matches Some(JsonView::Array(items)) && items.len() == citations.len() && forall|i: int|
        0 <= i < items.len() ==> (#[trigger] items[i]).field("url"@) == Some(
            JsonView::Text(citations[i].url),
        ) && (citations[i].title is None ==> items[i].field("title"@) is None) && (
        citations[i].title is Some ==> items[i].field("title"@) == Some(
            JsonView::Text(citations[i].title->0),
        ))
}

/// A synthesis loses nothing as JSON: the size, the summary, every theme with
/// its title, points and citations, and every citation, each in its order.
pub proof fn law_a_synthesis_is_written_whole(s: SynthesisView)
    ensures
        ({
            let json = synthesis_json(s);
            &&& json.field("size"@) == Some(JsonView::Text(size_name(s.size)))
            &&& json.field("summary"@) == Some(JsonView::Text(s.summary))
            &&& holds_citations(json.field("citations"@), s.citations)
            &&& json.field("themes"@) matches Some(JsonView::Array(items)) && items.len()
                == s.themes.len() && forall|i: int|
                0 <= i < items.len() ==> (#[trigger] items[i]).field("title"@) == Some(
                    JsonView::Text(s.themes[i].title),
                ) && holds_texts(items[i].field("points"@), s.themes[i].points) && holds_citations(
                    items[i].field("citations"@),
                    s.themes[i].citations,
                )
        }),
{
    lemma_response_names();
    reveal_with_fuel(crate::json::first_field, 5);
    lemma_citations_json(s.citations);
    let json = synthesis_json(s);
    let items = Seq::new(s.themes.len(), |i: int| section_json(s.themes[i]));
    assert(json.field("themes"@) == Some(JsonView::Array(items)));
    assert forall|i: int| 0 <= i < items.len() implies (#[trigger] items[i]).field("title"@)
        == Some(JsonView::Text(s.themes[i].title)) && holds_texts(
        items[i].field("points"@),
        s.themes[i].points,
    ) && holds_citations(items[i].field("citations"@), s.themes[i].citations) by {
        lemma_citations_json(s.themes[i].citations);
        assert(items[i].field("points"@) == Some(texts_view(s.themes[i].points)));
        assert(items[i].field("citations"@) == Some(citations_json(s.themes[i].citations)));
    }
}

proof fn lemma_citations_json(citations: Seq<CitationView>)
    ensures
        holds_citations(Some(citations_json(citations)), citations),
{
    lemma_response_names();
    reveal_with_fuel(crate::json::first_field, 4);
}

/// A response loses nothing as JSON.
pub proof fn law_a_response_is_written_whole(r: ResponseView)
    ensures
        ({
            let json = r.json();
            &&& json.field("session_id"@) == Some(JsonView::Text(r.session_id))
            &&& json.field("synthesis"@) == Some(synthesis_json(r.synthesis))
            &&& json.field("turns_used"@) == Some(JsonView::Number(r.turns_used as nat))
            &&& holds_texts(json.field("evidence_urls"@), r.evidence_urls)
            &&& json.field("usage"@) matches Some(u) && {
                &&& u.field("prompt_tokens"@) == Some(
                    JsonView::Number(r.usage.prompt_tokens as nat),
                )
                &&& u.field("completion_tokens"@) == Some(
                    JsonView::Number(r.usage.completion_tokens as nat),
                )
                &&& u.field("total_tokens"@) == Some(JsonView::Number(r.usage.total_tokens as nat))
                &&& u.field("reasoning_tokens"@) == Some(
                    JsonView::Number(r.usage.reasoning_tokens as nat),
                )
            }
        }),
{
    lemma_response_names();
    reveal_with_fuel(crate::json::first_field, 6);
}

/// Two texts behind each other keep what each holds.
proof fn lemma_either_holds(a: Seq<char>, b: Seq<char>, u: Seq<char>)
    ensures
        has_text(a, u) ==> has_text(a + b, u),
        has_text(b, u) ==> has_text(a + b, u),
{
    if has_text(a, u) {
        lemma_has_more(a, b, u);
    }
    if has_text(b, u) {
        lemma_has_middle(a, b, Seq::empty());
        lemma_has_through(a + b, b, u);
    }
}

proof fn lemma_points_text(points: Seq<Seq<char>>, i: int)
    requires
        0 <= i < points.len(),
    ensures
        has_text(points_text(points), "- "@ + points[i] + "\n"@),
    decreases points.len(),
{
    let before = points_text(points.drop_last());
    let line = "- "@ + points.last() + "\n"@;
    assert(points_text(points) =~= before + line);
    if i < points.len() - 1 {
        lemma_points_text(points.drop_last(), i);
        lemma_either_holds(before, line, "- "@ + points[i] + "\n"@);
    } else {
        lemma_has_middle(before, line, Seq::empty());
    }
}

proof fn lemma_themes_text(themes: Seq<SectionView>, i: int)
    requires
        0 <= i < themes.len(),
    ensures
        has_text(themes_text(themes), "## "@ + themes[i].title + "\n\n"@),
        has_text(themes_text(themes), points_text(themes[i].points)),
    decreases themes.len(),
{
    let before = themes_text(themes.drop_last());
    let head = "## "@ + themes.last().title + "\n\n"@;
    let points = points_text(themes.last().points);
    let block = head + points + "\n"@;
    assert(themes_text(themes) =~= before + block);
    if i < themes.len() - 1 {
        lemma_themes_text(themes.drop_last(), i);
        lemma_either_holds(before, block, "## "@ + themes[i].title + "\n\n"@);
        lemma_either_holds(before, block, points_text(themes[i].points));
    } else {
        lemma_has_middle(Seq::empty(), head, points + "\n"@);
        assert(head + (points + "\n"@) =~= block);
        lemma_has_middle(head, points, "\n"@);
        lemma_either_holds(before, block, head);
        lemma_either_holds(before, block, points);
    }
}

/// How a source is listed under its number.
pub open spec fn source_line(n: nat, c: CitationView) -> Seq<char> {
    decimal(n) + ". ["@ + (if c.title is Some {
        c.title->0
    } else {
        c.url
    }) + "]("@ + c.url + ")\n"@
}

proof fn lemma_sources_text(citations: Seq<CitationView>, i: int)
    requires
        0 <= i < citations.len(),
    ensures
        has_text(sources_text(citations), source_line((i + 1) as nat, citations[i])),
    decreases citations.len(),
{
    let before = sources_text(citations.drop_last());
    let line = source_line(citations.len(), citations.last());
    assert(sources_text(citations) =~= before + line);
    if i < citations.len() - 1 {
        lemma_sources_text(citations.drop_last(), i);
        lemma_either_holds(before, line, source_line((i + 1) as nat, citations[i]));
    } else {
        lemma_has_middle(before, line, Seq::empty());
    }
}

/// The printed answer is whole: it opens with the summary, has every theme
/// under its heading with each of its points as a list line, and lists every
/// citation as a numbered source.
pub proof fn law_answers_are_printed_whole(s: SynthesisView, i: int, j: int)
    ensures
        s.summary.is_prefix_of(rendered(s)),
        0 <= i < s.themes.len() ==> has_text(rendered(s), "## "@ + s.themes[i].title + "\n\n"@),
        0 <= i < s.themes.len() && 0 <= j < s.themes[i].points.len() ==> has_text(
            rendered(s),
            "- "@ + s.themes[i].points[j] + "\n"@,
        ),
        0 <= i < s.citations.len() ==> has_text(
            rendered(s),
            source_line((i + 1) as nat, s.citations[i]),
        ),
{
    let r = rendered(s);
    let a = s.summary + "\n\n"@;
    let b = a + themes_text(s.themes);
    let c = b + "Sources:\n"@;
    assert(r.subrange(0, s.summary.len() as int) =~= s.summary);
    lemma_has_middle(a, themes_text(s.themes), Seq::empty());
    if 0 <= i < s.themes.len() {
        let head = "## "@ + s.themes[i].title + "\n\n"@;
        lemma_themes_text(s.themes, i);
        lemma_has_through(b, themes_text(s.themes), head);
        lemma_has_more(b, "Sources:\n"@, head);
        lemma_has_more(c, sources_text(s.citations), head);
        if 0 <= j < s.themes[i].points.len() {
            let line = "- "@ + s.themes[i].points[j] + "\n"@;
            lemma_points_text(s.themes[i].points, j);
            lemma_has_through(themes_text(s.themes), points_text(s.themes[i].points), line);
            lemma_has_through(b, themes_text(s.themes), line);
            lemma_has_more(b, "Sources:\n"@, line);
            lemma_has_more(c, sources_text(s.citations), line);
        }
    }
    if 0 <= i < s.citations.len() {
        let line = source_line((i + 1) as nat, s.citations[i]);
        lemma_sources_text(s.citations, i);
        lemma_either_holds(c, sources_text(s.citations), line);
    }
}

/// The themes are printed in their order, each with its points in theirs.
pub proof fn law_answers_are_printed_in_order(
    themes: Seq<SectionView>,
    theme: SectionView,
    point: Seq<char>,
)
    ensures
        themes_text(themes.push(theme)).len() > themes_text(themes).len(),
        themes_text(themes).is_prefix_of(themes_text(themes.push(theme))),
        points_text(theme.points).is_prefix_of(points_text(theme.points.push(point))),
{
    assert(themes.push(theme).drop_last() =~= themes);
    assert(theme.points.push(point).drop_last() =~= theme.points);
    let a = themes_text(themes);
    let b = themes_text(themes.push(theme));
    assert(b.subrange(0, a.len() as int) =~= a);
    let c = points_text(theme.points);
    let d = points_text(theme.points.push(point));
    assert(d.subrange(0, c.len() as int) =~= c);
    reveal_strlit("## ");
}

/// The sources come last, under their heading and in the order of the
/// citations.
pub proof fn law_sources_are_printed_in_order(
    s: SynthesisView,
    citations: Seq<CitationView>,
    c: CitationView,
)
    ensures
        sources_text(citations).is_prefix_of(sources_text(citations.push(c))),
        source_line((citations.len() + 1) as nat, c).is_suffix_of(
            sources_text(citations.push(c)),
        ),
        ("Sources:\n"@ + sources_text(s.citations)).is_suffix_of(rendered(s)),
        sources_text(Seq::empty()).len() == 0,
{
    let more = citations.push(c);
    assert(more.drop_last() =~= citations);
    assert(more.last() == c);
    let before = sources_text(citations);
    let line = source_line((citations.len() + 1) as nat, c);
    let after = sources_text(more);
    assert(after =~= before + line);
    assert(after.take(before.len() as int) =~= before);
    assert(after.skip(after.len() - line.len()) =~= line);
    let tail = "Sources:\n"@ + sources_text(s.citations);
    let all = rendered(s);
    assert(all =~= s.summary + "\n\n"@ + themes_text(s.themes) + tail);
    assert(all.skip(all.len() - tail.len()) =~= tail);
}

} // verus!
