//! The executor prompt, which drives the agent loop until the synthesis.
//!
//! A short role, instructions, workflow and the roster of tools. The schemas
//! of the tools travel with the request and are never pasted here.

use vstd::prelude::*;
use crate::shared::types::synthesis::SynthesisSize;
#[allow(unused_imports)]
use crate::shared::types::synthesis::size_name;
#[allow(unused_imports)]
use crate::text::{has_text, lemma_has_middle, lemma_has_more, lemma_has_through, views};

verus! {

/// Who the model is.
pub const EXECUTE_ROLE_TEXT: &'static str =
    "You are a multi-turn web-research executor. Plan the research, then search broadly, read the promising hits, and synthesize the evidence into a final answer. You run direct-Execute only: never ask clarifying questions, start working with the offered tools.";

/// How the model works.
pub const EXECUTE_DISCIPLINE_TEXT: &'static str =
    "\n\nInstructions:\n- Use the offered tool calls to gather evidence before answering; never invent URLs — only fetch URLs returned by search.\n- Cite evidence with inline [title](url) links in the final answer.\n- Organize the final answer with `## ` headings, one per theme.\n- Answer directly with plain text and no tool call when the evidence suffices.\n\nWorkflow:\n1. Search broadly for the research goal.\n2. Fetch the promising hits and read them.\n3. Repeat search and fetch until the evidence suffices.\n4. Write the final answer as plain text with no tool call, then stop.\n\nAvailable tools:\n";

/// What a size asks for.
pub open spec fn size_shape(size: SynthesisSize) -> Seq<char> {
    match size {
        SynthesisSize::Small => "summary plus a single theme with at least one citation"@,
        SynthesisSize::Medium => "summary plus 1-4 themed sections"@,
        SynthesisSize::Large => "summary plus multi-point themed sections"@,
        SynthesisSize::Deep => "summary plus multi-point themed sections (deep shape)"@,
    }
}

/// What a size asks for.
pub fn size_guidance(size: SynthesisSize) -> (r: &'static str)
    ensures
        r@ == size_shape(size),
{
    match size {
        SynthesisSize::Small => "summary plus a single theme with at least one citation",
        SynthesisSize::Medium => "summary plus 1-4 themed sections",
        SynthesisSize::Large => "summary plus multi-point themed sections",
        SynthesisSize::Deep => "summary plus multi-point themed sections (deep shape)",
    }
}

/// The line of one tool.
pub open spec fn roster_line(tool: (Seq<char>, Seq<char>)) -> Seq<char> {
    "- "@ + tool.0 + " — "@ + tool.1 + "\n"@
}

/// The lines of the tools, in roster order.
pub open spec fn roster_lines(roster: Seq<(Seq<char>, Seq<char>)>) -> Seq<char>
    decreases roster.len(),
{
    if roster.len() == 0 {
        Seq::empty()
    } else {
        roster_lines(roster.drop_last()) + roster_line(roster.last())
    }
}

/// The roster section: one line for each tool, and an explicit line for none.
pub open spec fn roster_section(roster: Seq<(Seq<char>, Seq<char>)>) -> Seq<char> {
    if roster.len() == 0 {
        "- (none — answer directly)\n"@
    } else {
        roster_lines(roster)
    }
}

/// The system prompt of a run.
pub open spec fn system_prompt(roster: Seq<(Seq<char>, Seq<char>)>, size: SynthesisSize) -> Seq<
    char,
> {
    EXECUTE_ROLE_TEXT@ + EXECUTE_DISCIPLINE_TEXT@ + roster_section(roster)
        + "\nRequested size: "@ + size_name(size) + " — "@ + size_shape(size)
        + ".\nA non-empty text answer with no tool calls ends the run.\n"@
}

/// Builds the system prompt of a run: role, instructions, workflow, the tools
/// with their purposes, and what the requested size asks for.
pub fn build_system_prompt(tool_roster: &[(&str, &str)], size: SynthesisSize) -> (r: String)
    ensures
        r@ == system_prompt(views(tool_roster@), size),
{
    let ghost roster = views(tool_roster@);
    let mut prompt = EXECUTE_ROLE_TEXT.to_owned();
    prompt.append(EXECUTE_DISCIPLINE_TEXT);
    let ghost head = prompt@;
    if tool_roster.len() == 0 {
        prompt.append("- (none — answer directly)\n");
    } else {
        let mut i: usize = 0;
        assert(head + roster_lines(roster.take(0)) =~= head);
        while i < tool_roster.len()
            invariant
                i <= tool_roster@.len(),
                roster == views(tool_roster@),
                prompt@ == head + roster_lines(roster.take(i as int)),
            decreases tool_roster@.len() - i,
        {
            let ghost next = roster.take(i + 1);
            assert(next.drop_last() =~= roster.take(i as int));
            assert(next.last() == tool_roster@[i as int]@);
            prompt.append("- ");
            prompt.append(tool_roster[i].0);
            prompt.append(" — ");
            prompt.append(tool_roster[i].1);
            prompt.append("\n");
            i += 1;
            assert(prompt@ =~= head + roster_lines(next));
        }
        assert(roster.take(i as int) =~= roster);
    }
    assert(prompt@ == head + roster_section(roster));
    prompt.append("\nRequested size: ");
    prompt.append(size.as_str());
    prompt.append(" — ");
    prompt.append(size_guidance(size));
    prompt.append(".\nA non-empty text answer with no tool calls ends the run.\n");
    assert(prompt@ =~= system_prompt(roster, size));
    prompt
}

/// The system prompt names every tool of the roster with its purpose, and the
/// size that is asked for with its shape.
pub proof fn law_the_prompt_names_every_tool(
    roster: Seq<(Seq<char>, Seq<char>)>,
    size: SynthesisSize,
)
    ensures
        forall|i: int|
            0 <= i < roster.len() ==> has_text(
                system_prompt(roster, size),
                (#[trigger] roster[i]).0,
            ) && has_text(system_prompt(roster, size), roster[i].1),
        has_text(system_prompt(roster, size), size_name(size)),
        has_text(system_prompt(roster, size), size_shape(size)),
{
    let prompt = system_prompt(roster, size);
    let b = " — "@;
    let p1 = EXECUTE_ROLE_TEXT@ + EXECUTE_DISCIPLINE_TEXT@;
    let section = roster_section(roster);
    let p2 = p1 + section;
    let p3 = p2 + "\nRequested size: "@;
    let p4 = p3 + size_name(size);
    let p5 = p4 + b;
    let p6 = p5 + size_shape(size);
    let c = ".\nA non-empty text answer with no tool calls ends the run.\n"@;
    lemma_has_middle(p1, section, Seq::empty());
    lemma_has_more(p2, "\nRequested size: "@, section);
    lemma_has_more(p3, size_name(size), section);
    lemma_has_more(p4, b, section);
    lemma_has_more(p5, size_shape(size), section);
    lemma_has_more(p6, c, section);
    lemma_has_middle(p3, size_name(size), Seq::empty());
    lemma_has_more(p4, b, size_name(size));
    lemma_has_more(p5, size_shape(size), size_name(size));
    lemma_has_more(p6, c, size_name(size));
    lemma_has_middle(p5, size_shape(size), c);
    assert forall|i: int| 0 <= i < roster.len() implies has_text(
        prompt,
        (#[trigger] roster[i]).0,
    ) && has_text(prompt, roster[i].1) by {
        lemma_roster_line(roster, i);
        lemma_has_through(prompt, section, roster_line(roster[i]));
        let line = roster_line(roster[i]);
        let q1 = "- "@ + roster[i].0;
        let q2 = q1 + b;
        lemma_has_middle("- "@, roster[i].0, Seq::empty());
        lemma_has_more(q1, b, roster[i].0);
        lemma_has_more(q2, roster[i].1, roster[i].0);
        lemma_has_more(q2 + roster[i].1, "\n"@, roster[i].0);
        lemma_has_middle(q2, roster[i].1, "\n"@);
        lemma_has_through(prompt, line, roster[i].0);
        lemma_has_through(prompt, line, roster[i].1);
    }
}

proof fn lemma_roster_line(roster: Seq<(Seq<char>, Seq<char>)>, i: int)
    requires
        0 <= i < roster.len(),
    ensures
        has_text(roster_lines(roster), roster_line(roster[i])),
    decreases roster.len(),
{
    let front = roster.drop_last();
    let before = roster_lines(front);
    let last = roster_line(roster.last());
    if i == roster.len() - 1 {
        lemma_has_middle(before, last, Seq::empty());
    } else {
        lemma_roster_line(front, i);
        lemma_has_middle(Seq::empty(), before, last);
        lemma_has_through(roster_lines(roster), before, roster_line(roster[i]));
    }
}

/// The prompt begins with the role and the discipline, lists the tools in
/// their order, one a line, or says that there are none, and ends with what
/// ends a run.
pub proof fn law_the_prompt_has_its_parts(
    roster: Seq<(Seq<char>, Seq<char>)>,
    tool: (Seq<char>, Seq<char>),
    size: SynthesisSize,
)
    ensures
        (EXECUTE_ROLE_TEXT@ + EXECUTE_DISCIPLINE_TEXT@).is_prefix_of(system_prompt(roster, size)),
        "A non-empty text answer with no tool calls ends the run.\n"@.is_suffix_of(
            system_prompt(roster, size),
        ),
        roster.len() > 0 ==> roster_section(roster).is_prefix_of(
            roster_section(roster.push(tool)),
        ),
        ("- "@ + tool.0 + " — "@ + tool.1 + "\n"@).is_suffix_of(roster_section(roster.push(tool))),
        roster.len() == 0 ==> roster_section(roster) == "- (none — answer directly)\n"@,
        has_text(system_prompt(roster, size), roster_section(roster)),
{
    let head = EXECUTE_ROLE_TEXT@ + EXECUTE_DISCIPLINE_TEXT@;
    let section = roster_section(roster);
    let last = ".\nA non-empty text answer with no tool calls ends the run.\n"@;
    let front = head + section + "\nRequested size: "@ + size_name(size) + " — "@ + size_shape(
        size,
    );
    let prompt = system_prompt(roster, size);
    assert(prompt == front + last);
    assert(prompt.take(head.len() as int) =~= head);
    lemma_end_of_the_prompt();
    let end = "A non-empty text answer with no tool calls ends the run.\n"@;
    lemma_suffix_through(front, last, end);
    lemma_has_middle(head, section, Seq::empty());
    lemma_has_more(head + section, "\nRequested size: "@, section);
    lemma_has_more(head + section + "\nRequested size: "@, size_name(size), section);
    lemma_has_more(
        head + section + "\nRequested size: "@ + size_name(size),
        " — "@,
        section,
    );
    lemma_has_more(
        head + section + "\nRequested size: "@ + size_name(size) + " — "@,
        size_shape(size),
        section,
    );
    lemma_has_more(front, last, section);
    let more = roster.push(tool);
    assert(more.drop_last() =~= roster);
    assert(more.last() == tool);
    let line = roster_line(tool);
    let lines = roster_lines(more);
    assert(lines == roster_lines(roster) + line);
    assert(lines.skip(lines.len() - line.len()) =~= line);
    assert(lines.take(roster_lines(roster).len() as int) =~= roster_lines(roster));
}

proof fn lemma_end_of_the_prompt()
    ensures
        "A non-empty text answer with no tool calls ends the run.\n"@.is_suffix_of(
            ".\nA non-empty text answer with no tool calls ends the run.\n"@,
        ),
{
    reveal_strlit("A non-empty text answer with no tool calls ends the run.\n");
    reveal_strlit(".\nA non-empty text answer with no tool calls ends the run.\n");
    let last = ".\nA non-empty text answer with no tool calls ends the run.\n"@;
    let end = "A non-empty text answer with no tool calls ends the run.\n"@;
    assert(last.skip(last.len() - end.len()) =~= end);
}

proof fn lemma_suffix_through(front: Seq<char>, last: Seq<char>, end: Seq<char>)
    requires
        end.is_suffix_of(last),
    ensures
        end.is_suffix_of(front + last),
{
    let all = front + last;
    assert(all.skip(all.len() - end.len()) =~= last.skip(last.len() - end.len()));
}

} // verus!
