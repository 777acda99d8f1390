//! The typed final answer of a research run.

use vstd::prelude::*;
#[allow(unused_imports)]
use crate::text::{opt_view, views};

verus! {

/// The requested size of a synthesis; echoed unchanged.
#[derive(Debug, Clone, Copy, PartialEq, Eq, Structural)]
pub enum SynthesisSize {
    /// Summary and one to four themed sections.
    Medium,
    /// Summary and a single theme, at least one citation.
    Small,
    /// Summary and themed sections of several points.
    Large,
    /// The shape of large, reserved for a deeper mode.
    Deep,
}

impl Default for SynthesisSize {
    fn default() -> (r: Self)
        ensures
            r == SynthesisSize::Medium,
    {
        SynthesisSize::Medium
    }
}

/// The stable name of a size.
pub open spec fn size_name(size: SynthesisSize) -> Seq<char> {
    match size {
        SynthesisSize::Small => "small"@,
        SynthesisSize::Medium => "medium"@,
        SynthesisSize::Large => "large"@,
        SynthesisSize::Deep => "deep"@,
    }
}

impl SynthesisSize {
    /// The stable name, used in prompts and messages.
    pub fn as_str(&self) -> (r: &'static str)
        ensures
            r@ == size_name(*self),
    {
        match self {
            SynthesisSize::Small => "small",
            SynthesisSize::Medium => "medium",
            SynthesisSize::Large => "large",
            SynthesisSize::Deep => "deep",
        }
    }
}

/// One `[title](url)` citation.
#[derive(Debug, PartialEq, Eq)]
pub struct Citation {
    pub url: String,
    /// The link text; `None` where it is empty.
    pub title: Option<String>,
}

/// What a citation says.
#[verifier::ext_equal]
pub struct CitationView {
    pub url: Seq<char>,
    pub title: Option<Seq<char>>,
}

impl View for Citation {
    type V = CitationView;

    open spec fn view(&self) -> CitationView {
        CitationView { url: self.url@, title: opt_view(self.title) }
    }
}

impl Clone for Citation {
    fn clone(&self) -> (r: Self)
        ensures
            r@ == self@,
    {
        Citation { url: self.url.clone(), title: crate::text::copied(&self.title) }
    }
}

/// One `## ` section of the answer; `points` is never empty.
#[derive(Debug, Clone)]
pub struct ThemeSection {
    pub title: String,
    pub points: Vec<String>,
    /// The links inside this section, in document order.
    pub citations: Vec<Citation>,
}

/// What a section says.
#[verifier::ext_equal]
pub struct SectionView {
    pub title: Seq<char>,
    pub points: Seq<Seq<char>>,
    pub citations: Seq<CitationView>,
}

impl View for ThemeSection {
    type V = SectionView;

    open spec fn view(&self) -> SectionView {
        SectionView {
            title: self.title@,
            points: views(self.points@),
            citations: views(self.citations@),
        }
    }
}

impl Default for ThemeSection {
    fn default() -> (r: Self)
        ensures
            r@ == (SectionView {
                title: Seq::empty(),
                points: Seq::empty(),
                citations: Seq::empty(),
            }),
    {
        let r = ThemeSection { title: String::new(), points: Vec::new(), citations: Vec::new() };
        proof {
            crate::text::lemma_views_empty(r.points@);
            crate::text::lemma_views_empty(r.citations@);
        }
        r
    }
}

/// The typed final answer of one run.
#[derive(Debug, Clone)]
pub struct Synthesis {
    /// The requested size, never raised or lowered.
    pub size: SynthesisSize,
    /// Never empty.
    pub summary: String,
    /// Never empty; an answer without headings gives one `Findings` theme.
    pub themes: Vec<ThemeSection>,
    /// The citations of the whole answer, each URL once, in document order.
    pub citations: Vec<Citation>,
}

/// What a synthesis says.
#[verifier::ext_equal]
pub struct SynthesisView {
    pub size: SynthesisSize,
    pub summary: Seq<char>,
    pub themes: Seq<SectionView>,
    pub citations: Seq<CitationView>,
}

impl View for Synthesis {
    type V = SynthesisView;

    open spec fn view(&self) -> SynthesisView {
        SynthesisView {
            size: self.size,
            summary: self.summary@,
            themes: views(self.themes@),
            citations: views(self.citations@),
        }
    }
}

/// Sizes are named by stable words.
pub proof fn law_sizes_have_their_names(size: SynthesisSize)
    ensures
        size is Small ==> size_name(size) == "small"@,
        size is Medium ==> size_name(size) == "medium"@,
        size is Large ==> size_name(size) == "large"@,
        size is Deep ==> size_name(size) == "deep"@,
{
}

} // verus!
