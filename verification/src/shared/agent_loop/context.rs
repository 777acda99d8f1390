//! The transcript that the model sees, and how it is kept short.
//!
//! The transcript holds what the assistant said and the observations of its
//! tool calls. Lengths are counted in characters. Evidence is cut when it
//! comes in, and the oldest pairs of entries are dropped where the whole is
//! too long. The system prompt and the goal are never dropped.

use vstd::prelude::*;
use crate::shared::agent_loop::runner::{LoopBudget, LoopInput};
use crate::shared::gateway::reply::ChatMessage;
use crate::text::{chars_of, decimal_text, string_of};
#[allow(unused_imports)]
use crate::shared::agent_loop::runner::LoopInputView;
#[allow(unused_imports)]
use crate::shared::gateway::reply::MessageView;
#[allow(unused_imports)]
use crate::shared::types::synthesis::size_name;
#[allow(unused_imports)]
use crate::text::{decimal, has_text, lemma_has_middle, lemma_has_more, lemma_length_to,
    lemma_views_empty, lemma_views_push, length_to, views};

verus! {

/// One entry of the transcript.
#[derive(Debug, PartialEq, Eq)]
pub enum HistoryEntry {
    Assistant(String),
    Observation(String),
}

/// What an entry says.
#[verifier::ext_equal]
pub enum EntryView {
    Assistant(Seq<char>),
    Observation(Seq<char>),
}

impl View for HistoryEntry {
    type V = EntryView;

    open spec fn view(&self) -> EntryView {
        match *self {
            HistoryEntry::Assistant(text) => EntryView::Assistant(text@),
            HistoryEntry::Observation(text) => EntryView::Observation(text@),
        }
    }
}

impl Clone for HistoryEntry {
    fn clone(&self) -> (r: Self)
        ensures
            r@ == self@,
    {
        match self {
            HistoryEntry::Assistant(text) => HistoryEntry::Assistant(text.clone()),
            HistoryEntry::Observation(text) => HistoryEntry::Observation(text.clone()),
        }
    }
}

impl EntryView {
    /// The text of the entry.
    pub open spec fn text(self) -> Seq<char> {
        match self {
            EntryView::Assistant(text) => text,
            EntryView::Observation(text) => text,
        }
    }
}

impl HistoryEntry {
    fn chars(&self) -> (r: usize)
        ensures
            r == self@.text().len(),
    {
        match self {
            HistoryEntry::Assistant(text) => text.as_str().unicode_len(),
            HistoryEntry::Observation(text) => text.as_str().unicode_len(),
        }
    }
}

/// The goal as the model sees it.
pub open spec fn goal_text(input: LoopInputView) -> Seq<char> {
    "Research goal: "@ + input.goal + "\nRequested synthesis size: "@ + size_name(input.size)
        + "."@
}

/// The goal as the model sees it.
pub fn goal_message(input: &LoopInput) -> (r: String)
    ensures
        r@ == goal_text(input@),
{
    let mut text = "Research goal: ".to_owned();
    text.append(input.goal.as_str());
    text.append("\nRequested synthesis size: ");
    text.append(input.size.as_str());
    text.append(".");
    text
}

/// A text cut to `max` characters, with a note of how many are gone.
pub open spec fn capped(text: Seq<char>, max: nat) -> Seq<char> {
    if text.len() <= max {
        text
    } else {
        text.take(max as int) + "\n[truncated "@ + decimal((text.len() - max) as nat) + " chars]"@
    }
}

/// Cuts one text of evidence; what is too much becomes a note that says how
/// many characters are gone.
pub fn cap_evidence(text: &str, max_evidence_chars: usize) -> (r: String)
    ensures
        r@ == capped(text@, max_evidence_chars as nat),
{
    let chars = chars_of(text);
    if chars.len() <= max_evidence_chars {
        return text.to_owned();
    }
    let removed: usize = chars.len() - max_evidence_chars;
    let mut out = string_of(chars.as_slice(), 0, max_evidence_chars);
    assert(out@ =~= text@.take(max_evidence_chars as int));
    out.append("\n[truncated ");
    let shown = decimal_text(removed as u64);
    out.append(shown.as_str());
    out.append(" chars]");
    out
}

/// The length of a transcript.
pub open spec fn history_chars(history: Seq<EntryView>) -> nat
    decreases history.len(),
{
    if history.len() == 0 {
        0
    } else {
        history_chars(history.drop_last()) + history.last().text().len()
    }
}

/// How many of the oldest pairs are dropped: as long as more than one pair is
/// left and the whole is too long.
pub open spec fn dropped_pairs(fixed: nat, history: Seq<EntryView>, max: nat) -> nat
    decreases history.len(),
{
    if history.len() > 2 && fixed + history_chars(history) > max {
        1 + dropped_pairs(fixed, history.skip(2), max)
    } else {
        0
    }
}

/// The entries with a note in front of the first observation.
pub open spec fn noted(history: Seq<EntryView>, note: Seq<char>) -> Seq<EntryView>
    decreases history.len(),
{
    if history.len() == 0 {
        history
    } else {
        match history[0] {
            EntryView::Observation(text) => seq![EntryView::Observation(note + text)]
                + history.drop_first(),
            EntryView::Assistant(_) => seq![history[0]] + noted(history.drop_first(), note),
        }
    }
}

/// The note about dropped pairs.
pub open spec fn truncation_note(dropped: nat) -> Seq<char> {
    "[history truncated: "@ + decimal(dropped) + " oldest turn(s) dropped]\n"@
}

/// The transcript that is left.
pub open spec fn surviving(fixed: nat, history: Seq<EntryView>, max: nat) -> Seq<EntryView> {
    let n = dropped_pairs(fixed, history, max);
    if n == 0 {
        history
    } else {
        noted(history.skip(2 * n as int), truncation_note(n))
    }
}

proof fn lemma_history_chars_front(history: Seq<EntryView>)
    requires
        history.len() > 0,
    ensures
        history_chars(history) == history[0].text().len() + history_chars(history.drop_first()),
    decreases history.len(),
{
    if history.len() == 1 {
        assert(history.drop_last() =~= Seq::<EntryView>::empty());
        assert(history.drop_first() =~= Seq::<EntryView>::empty());
    } else {
        lemma_history_chars_front(history.drop_last());
        assert(history.drop_last().drop_first() =~= history.drop_first().drop_last());
        assert(history.drop_first().last() == history.last());
    }
}

/// Whether the fixed part and the entries from `from` on are longer than
/// `max`.
fn too_long(system: usize, goal: usize, history: &[HistoryEntry], from: usize, max: usize) -> (r:
    bool)
    requires
        from <= history@.len(),
    ensures
        r == (system + goal + history_chars(views(history@).skip(from as int)) > max),
{
    let ghost all = views(history@);
    if system > max || goal > max - system {
        return true;
    }
    let mut left: usize = max - system - goal;
    let mut i: usize = from;
    while i < history.len()
        invariant
            from <= i <= history@.len(),
            all == views(history@),
            left <= max,
            system + goal + history_chars(all.skip(from as int)) - max == history_chars(
                all.skip(i as int),
            ) - left,
        decreases history@.len() - i,
    {
        proof {
            lemma_history_chars_front(all.skip(i as int));
            assert(all.skip(i as int)[0] == history@[i as int]@);
            assert(all.skip(i as int).drop_first() =~= all.skip(i + 1));
        }
        let n: usize = history[i].chars();
        if n > left {
            return true;
        }
        left -= n;
        i += 1;
    }
    assert(all.skip(i as int) =~= Seq::<EntryView>::empty());
    false
}

fn copy_from(history: &[HistoryEntry], from: usize) -> (r: Vec<HistoryEntry>)
    requires
        from <= history@.len(),
    ensures
        views(r@) == views(history@).skip(from as int),
{
    broadcast use {lemma_views_push, lemma_views_empty};

    let mut out: Vec<HistoryEntry> = Vec::new();
    let mut i: usize = from;
    assert(views(history@).subrange(from as int, from as int) =~= Seq::<EntryView>::empty());
    while i < history.len()
        invariant
            from <= i <= history@.len(),
            views(out@) == views(history@).subrange(from as int, i as int),
        decreases history@.len() - i,
    {
        let e = history[i].clone();
        let ghost so_far = views(out@);
        out.push(e);
        assert(views(out@) == so_far.push(views(history@)[i as int]));
        i += 1;
        assert(views(out@) =~= views(history@).subrange(from as int, i as int));
    }
    assert(views(out@) =~= views(history@).skip(from as int));
    out
}

proof fn lemma_noted_at(history: Seq<EntryView>, note: Seq<char>, k: int)
    requires
        0 <= k <= history.len(),
        forall|i: int| 0 <= i < k ==> (#[trigger] history[i]) is Assistant,
        k < history.len() ==> history[k] is Observation,
    ensures
        noted(history, note) == if k < history.len() {
            history.update(k, EntryView::Observation(note + history[k].text()))
        } else {
            history
        },
    decreases k,
{
    if history.len() == 0 {
    } else if k == 0 {
        assert(noted(history, note) =~= history.update(
            0,
            EntryView::Observation(note + history[0].text()),
        ));
    } else {
        let rest = history.drop_first();
        assert(history[0] is Assistant);
        assert forall|i: int| 0 <= i < k - 1 implies (#[trigger] rest[i]) is Assistant by {
            assert(rest[i] == history[i + 1]);
        }
        lemma_noted_at(rest, note, k - 1);
        if k < history.len() {
            assert(rest[k - 1] == history[k]);
            assert(seq![history[0]] + rest.update(
                k - 1,
                EntryView::Observation(note + history[k].text()),
            ) =~= history.update(k, EntryView::Observation(note + history[k].text())));
        } else {
            assert(seq![history[0]] + rest =~= history);
        }
    }
}

fn add_note(history: &mut Vec<HistoryEntry>, note: &str)
    ensures
        views(final(history)@) == noted(views(old(history)@), note@),
{
    let ghost all = views(history@);
    let n: usize = history.len();
    let mut k: usize = 0;
    while k < n
        invariant
            k <= n,
            n == history@.len(),
            all == views(history@),
            history@ == old(history)@,
            forall|i: int| 0 <= i < k ==> (#[trigger] all[i]) is Assistant,
        decreases n - k,
    {
        assert(all[k as int] == history@[k as int]@);
        let marked = match &history[k] {
            HistoryEntry::Observation(text) => {
                let mut marked = note.to_owned();
                marked.append(text.as_str());
                Some(marked)
            },
            HistoryEntry::Assistant(_) => None,
        };
        match marked {
            Some(text) => {
                proof {
                    lemma_noted_at(all, note@, k as int);
                }
                let ghost tv = text@;
                history.set(k, HistoryEntry::Observation(text));
                assert(views(history@) =~= all.update(k as int, EntryView::Observation(tv)));
                return ;
            },
            None => {},
        }
        k += 1;
    }
    proof {
        lemma_noted_at(all, note@, k as int);
    }
}

/// Drops the oldest pairs of entries until the transcript fits, or one pair
/// is left. The oldest observation that is left says how many were dropped.
/// Says whether any were.
pub fn truncate_history(
    system_chars: usize,
    goal_chars: usize,
    history: &[HistoryEntry],
    budget: &LoopBudget,
) -> (r: (Vec<HistoryEntry>, bool))
    ensures
        views(r.0@) == surviving(
            (system_chars + goal_chars) as nat,
            views(history@),
            budget.max_context_chars as nat,
        ),
        r.1 == (dropped_pairs(
            (system_chars + goal_chars) as nat,
            views(history@),
            budget.max_context_chars as nat,
        ) > 0),
{
    let ghost all = views(history@);
    let ghost fixed = (system_chars + goal_chars) as nat;
    let ghost max = budget.max_context_chars as nat;
    let mut from: usize = 0;
    let mut dropped: usize = 0;
    assert(all.skip(0) =~= all);
    while history.len() - from > 2 && too_long(
        system_chars,
        goal_chars,
        history,
        from,
        budget.max_context_chars,
    )
        invariant
            from <= history@.len(),
            from == 2 * dropped,
            all == views(history@),
            fixed == system_chars + goal_chars,
            max == budget.max_context_chars,
            dropped_pairs(fixed, all, max) == dropped + dropped_pairs(
                fixed,
                all.skip(from as int),
                max,
            ),
        decreases history@.len() - from,
    {
        assert(all.skip(from as int).skip(2) =~= all.skip(from + 2));
        from += 2;
        dropped += 1;
    }
    let mut out = copy_from(history, from);
    if dropped == 0 {
        assert(views(out@) =~= all);
        return (out, false);
    }
    let mut note = "[history truncated: ".to_owned();
    let shown = decimal_text(dropped as u64);
    note.append(shown.as_str());
    note.append(" oldest turn(s) dropped]\n");
    add_note(&mut out, note.as_str());
    (out, true)
}

/// The message of an entry; an assistant that said nothing has none.
pub open spec fn entry_message(e: EntryView) -> Seq<MessageView> {
    match e {
        EntryView::Assistant(text) => if text.len() == 0 {
            Seq::empty()
        } else {
            seq![MessageView { role: "assistant"@, content: text }]
        },
        EntryView::Observation(text) => seq![MessageView { role: "user"@, content: text }],
    }
}

/// The messages of entries.
pub open spec fn entry_messages(history: Seq<EntryView>) -> Seq<MessageView>
    decreases history.len(),
{
    if history.len() == 0 {
        Seq::empty()
    } else {
        entry_messages(history.drop_last()) + entry_message(history.last())
    }
}

/// The messages of a turn: the system prompt, the goal, and what is left of
/// the transcript.
pub open spec fn assembled(
    prompt: Seq<char>,
    input: LoopInputView,
    history: Seq<EntryView>,
    max: nat,
) -> Seq<MessageView> {
    let goal = goal_text(input);
    seq![
        MessageView { role: "system"@, content: prompt },
        MessageView { role: "user"@, content: goal },
    ] + entry_messages(surviving(prompt.len() + goal.len(), history, max))
}

/// Assembles the messages of a turn.
pub fn assemble(
    system_prompt: &str,
    input: &LoopInput,
    history: &[HistoryEntry],
    budget: &LoopBudget,
) -> (r: Vec<ChatMessage>)
    ensures
        views(r@) == assembled(
            system_prompt@,
            input@,
            views(history@),
            budget.max_context_chars as nat,
        ),
{
    broadcast use {lemma_views_push, lemma_views_empty};

    let goal = goal_message(input);
    let system_chars: usize = system_prompt.unicode_len();
    let goal_chars: usize = goal.as_str().unicode_len();
    let ghost goal_view = goal@;
    let (left, _) = truncate_history(system_chars, goal_chars, history, budget);
    let ghost entries = views(left@);
    let mut messages: Vec<ChatMessage> = Vec::new();
    messages.push(ChatMessage { role: "system".to_owned(), content: system_prompt.to_owned() });
    messages.push(ChatMessage { role: "user".to_owned(), content: goal });
    let ghost head = seq![
        MessageView { role: "system"@, content: system_prompt@ },
        MessageView { role: "user"@, content: goal_view },
    ];
    assert(views(messages@) =~= head);
    let mut i: usize = 0;
    assert(head + entry_messages(entries.take(0)) =~= head);
    while i < left.len()
        invariant
            i <= left@.len(),
            entries == views(left@),
            views(messages@) == head + entry_messages(entries.take(i as int)),
        decreases left@.len() - i,
    {
        let ghost next = entries.take(i + 1);
        let ghost so_far = views(messages@);
        assert(next.drop_last() =~= entries.take(i as int));
        assert(next.last() == left@[i as int]@);
        match &left[i] {
            HistoryEntry::Assistant(text) => {
                if !text.as_str().is_empty() {
                    messages.push(
                        ChatMessage { role: "assistant".to_owned(), content: text.clone() },
                    );
                    assert(views(messages@) =~= so_far + entry_message(next.last()));
                }
            },
            HistoryEntry::Observation(text) => {
                messages.push(ChatMessage { role: "user".to_owned(), content: text.clone() });
                assert(views(messages@) =~= so_far + entry_message(next.last()));
            },
        }
        i += 1;
        assert(views(messages@) =~= head + entry_messages(next));
    }
    assert(entries.take(i as int) =~= entries);
    messages
}

/// The system prompt and the goal open every request, however long the
/// transcript is.
pub proof fn law_prompt_and_goal_are_never_dropped(
    prompt: Seq<char>,
    input: LoopInputView,
    history: Seq<EntryView>,
    max: nat,
)
    ensures
        assembled(prompt, input, history, max).len() >= 2,
        assembled(prompt, input, history, max)[0] == (MessageView {
            role: "system"@,
            content: prompt,
        }),
        assembled(prompt, input, history, max)[1] == (MessageView {
            role: "user"@,
            content: goal_text(input),
        }),
{
}

/// Truncation drops whole pairs from the old end, no more than it must: what
/// is left fits or is at most one pair, and with one pair less dropped it
/// would not fit.
pub proof fn law_truncation_drops_as_little_as_it_can(
    fixed: nat,
    history: Seq<EntryView>,
    max: nat,
)
    ensures
        ({
            let n = dropped_pairs(fixed, history, max);
            &&& 2 * n <= history.len()
            &&& (history.len() > 0 ==> 2 * n < history.len())
            &&& (fixed + history_chars(history.skip(2 * n as int)) <= max || history.len() - 2 * n
                <= 2)
            &&& forall|k: nat|
                k < n ==> fixed + history_chars(#[trigger] history.skip(2 * k as int)) > max
        }),
    decreases history.len(),
{
    if history.len() > 2 && fixed + history_chars(history) > max {
        let rest = history.skip(2);
        law_truncation_drops_as_little_as_it_can(fixed, rest, max);
        let m = dropped_pairs(fixed, rest, max);
        assert(rest.skip(2 * m as int) =~= history.skip(2 * (m + 1) as int));
        assert forall|k: nat| k < m + 1 implies fixed + history_chars(
            #[trigger] history.skip(2 * k as int),
        ) > max by {
            if k == 0 {
                assert(history.skip(0) =~= history);
            } else {
                let j = (k - 1) as nat;
                assert(rest.skip(2 * j as int) =~= history.skip(2 * k as int));
            }
        }
    } else {
        assert(history.skip(0) =~= history);
    }
}

/// Cutting keeps the front of a text as it is, and leaves a text that fits
/// alone.
pub proof fn law_capping_keeps_the_front(text: Seq<char>, max: nat)
    ensures
        text.len() <= max ==> capped(text, max) == text,
        text.len() > max ==> capped(text, max).len() > max && capped(text, max).take(max as int)
            == text.take(max as int),
{
    if text.len() > max {
        reveal_strlit("\n[truncated ");
        assert(capped(text, max).take(max as int) =~= text.take(max as int));
    }
}

/// The texts of a history.
pub open spec fn texts_of(history: Seq<EntryView>) -> Seq<Seq<char>> {
    Seq::new(
        history.len(),
        |i: int|
            match history[i] {
                EntryView::Assistant(text) => text,
                EntryView::Observation(text) => text,
            },
    )
}

proof fn lemma_history_chars(history: Seq<EntryView>)
    ensures
        history_chars(history) == length_to(texts_of(history), history.len() as int),
    decreases history.len(),
{
    if history.len() > 0 {
        let n = history.len() - 1;
        lemma_history_chars(history.drop_last());
        assert(texts_of(history.drop_last()).take(n) =~= texts_of(history).take(n));
        lemma_length_to(texts_of(history.drop_last()), texts_of(history), n);
    }
}

proof fn lemma_entry_messages(history: Seq<EntryView>)
    requires
        forall|i: int|
            0 <= i < history.len() ==> ((#[trigger] history[i]) matches EntryView::Assistant(text)
                ==> text.len() > 0),
    ensures
        entry_messages(history).len() == history.len(),
        forall|i: int|
            #![trigger history[i]]
            0 <= i < history.len() ==> entry_messages(history)[i] == match history[i] {
                EntryView::Assistant(text) => MessageView { role: "assistant"@, content: text },
                EntryView::Observation(text) => MessageView { role: "user"@, content: text },
            },
    decreases history.len(),
{
    if history.len() > 0 {
        let front = history.drop_last();
        assert forall|i: int| 0 <= i < front.len() implies ((
        #[trigger] front[i]) matches EntryView::Assistant(text) ==> text.len() > 0) by {
            assert(front[i] == history[i]);
        }
        lemma_entry_messages(front);
        assert(history[history.len() - 1] == history.last());
        assert forall|i: int| #![trigger history[i]] 0 <= i < history.len() implies entry_messages(
            history,
        )[i] == match history[i] {
            EntryView::Assistant(text) => MessageView { role: "assistant"@, content: text },
            EntryView::Observation(text) => MessageView { role: "user"@, content: text },
        } by {
            if i < front.len() {
                assert(front[i] == history[i]);
            }
        }
    }
}

/// While it fits, the model is shown everything: behind the prompt and the
/// goal one message for each entry of the history, in order, what it said as
/// its own words and each observation as the user's.
pub proof fn law_everything_is_shown_while_it_fits(
    prompt: Seq<char>,
    input: LoopInputView,
    history: Seq<EntryView>,
    max: nat,
)
    requires
        forall|i: int|
            0 <= i < history.len() ==> ((#[trigger] history[i]) matches EntryView::Assistant(text)
                ==> text.len() > 0),
    ensures
        ({
            let messages = assembled(prompt, input, history, max);
            messages[0].content.len() + messages[1].content.len() + length_to(
                texts_of(history),
                history.len() as int,
            ) <= max || history.len() <= 2 ==> {
                &&& messages.len() == 2 + history.len()
                &&& forall|i: int|
                    #![trigger history[i]]
                    0 <= i < history.len() ==> messages[2 + i] == match history[i] {
                        EntryView::Assistant(text) => MessageView {
                            role: "assistant"@,
                            content: text,
                        },
                        EntryView::Observation(text) => MessageView {
                            role: "user"@,
                            content: text,
                        },
                    }
            }
        }),
{
    lemma_history_chars(history);
    lemma_entry_messages(history);
}

/// The model is told the goal in the words of the user, and the size that is
/// asked for.
pub proof fn law_the_goal_is_told(
    prompt: Seq<char>,
    input: LoopInputView,
    history: Seq<EntryView>,
    max: nat,
)
    ensures
        assembled(prompt, input, history, max)[0].role == "system"@,
        assembled(prompt, input, history, max)[0].content == prompt,
        assembled(prompt, input, history, max)[1].role == "user"@,
        has_text(assembled(prompt, input, history, max)[1].content, input.goal),
        has_text(assembled(prompt, input, history, max)[1].content, size_name(input.size)),
{
    let goal = goal_text(input);
    let a = "Research goal: "@;
    let b = "\nRequested synthesis size: "@;
    lemma_has_middle(a, input.goal, b + size_name(input.size) + "."@);
    assert(a + input.goal + (b + size_name(input.size) + "."@) =~= goal);
    lemma_has_middle(a + input.goal + b, size_name(input.size), "."@);
}

/// Whether one entry is the other with perhaps something written before it.
pub open spec fn ends_as(e: EntryView, whole: EntryView) -> bool {
    match (e, whole) {
        (EntryView::Assistant(a), EntryView::Assistant(b)) => a == b,
        (EntryView::Observation(a), EntryView::Observation(b)) => b.is_suffix_of(a),
        _ => false,
    }
}

proof fn lemma_noted(history: Seq<EntryView>, note: Seq<char>)
    ensures
        noted(history, note).len() == history.len(),
        forall|i: int|
            #![trigger history[i]]
            0 <= i < history.len() ==> ends_as(noted(history, note)[i], history[i]),
    decreases history.len(),
{
    if history.len() > 0 {
        let rest = history.drop_first();
        let all = noted(history, note);
        match history[0] {
            EntryView::Observation(text) => {
                let s = note + text;
                assert(s.subrange(s.len() - text.len(), s.len() as int) =~= text);
                assert forall|i: int| #![trigger history[i]] 0 <= i
                    < history.len() implies ends_as(all[i], history[i]) by {
                    if i > 0 {
                        assert(all[i] == rest[i - 1]);
                        if let EntryView::Observation(t) = history[i] {
                            assert(t.subrange(0, t.len() as int) =~= t);
                        }
                    }
                }
            },
            EntryView::Assistant(_) => {
                lemma_noted(rest, note);
                assert forall|i: int| #![trigger history[i]] 0 <= i
                    < history.len() implies ends_as(all[i], history[i]) by {
                    if i > 0 {
                        assert(rest[i - 1] == history[i]);
                        assert(all[i] == noted(rest, note)[i - 1]);
                    }
                }
            },
        }
    }
}

/// What does not fit is dropped from the old end, two entries at a time and no
/// more than needed: what survives is the newest part of the history, as it
/// was but for a note, and it fits, or only two entries of it are left. With
/// two entries more it would not have fitted.
pub proof fn law_the_newest_turns_survive(fixed: nat, history: Seq<EntryView>, max: nat)
    ensures
        ({
            let rest = surviving(fixed, history, max);
            let k = history.len() - rest.len();
            let texts = texts_of(history);
            let n = history.len() as int;
            &&& 0 <= k <= n && k % 2 == 0
            &&& forall|i: int|
                #![trigger rest[i]]
                0 <= i < rest.len() ==> ends_as(rest[i], history[k + i])
            &&& k == 0 ==> rest == history
            &&& fixed + length_to(texts, n) - length_to(texts, k) <= max || rest.len() <= 2
            &&& k > 0 ==> fixed + length_to(texts, n) - length_to(texts, k - 2) > max
        }),
{
    let n = dropped_pairs(fixed, history, max);
    let rest = surviving(fixed, history, max);
    let texts = texts_of(history);
    let len = history.len() as int;
    law_truncation_drops_as_little_as_it_can(fixed, history, max);
    let kept = history.skip(2 * n as int);
    lemma_noted(kept, truncation_note(n));
    lemma_history_chars(kept);
    lemma_chars_behind(history, 2 * n as int);
    if n > 0 {
        let more = history.skip(2 * (n - 1) as int);
        assert(fixed + history_chars(history.skip(2 * (n - 1) as nat as int)) > max);
        lemma_history_chars(more);
        lemma_chars_behind(history, 2 * (n - 1) as int);
        assert forall|i: int| #![trigger rest[i]] 0 <= i < rest.len() implies ends_as(
            rest[i],
            history[2 * n + i],
        ) by {
            assert(kept[i] == history[2 * n + i]);
        }
    } else {
        assert forall|i: int| #![trigger rest[i]] 0 <= i < rest.len() implies ends_as(
            rest[i],
            history[i],
        ) by {
            if let EntryView::Observation(t) = history[i] {
                assert(t.subrange(0, t.len() as int) =~= t);
            }
        }
        assert(history.skip(0) =~= history);
    }
}

proof fn lemma_chars_behind(history: Seq<EntryView>, k: int)
    requires
        0 <= k <= history.len(),
    ensures
        length_to(texts_of(history.skip(k)), history.len() - k) == length_to(
            texts_of(history),
            history.len() as int,
        ) - length_to(texts_of(history), k),
    decreases history.len() - k,
{
    lemma_chars_between(history, k, history.len() - k);
}

proof fn lemma_chars_between(history: Seq<EntryView>, k: int, n: int)
    requires
        0 <= k,
        0 <= n,
        k + n <= history.len(),
    ensures
        length_to(texts_of(history.skip(k)), n) == length_to(texts_of(history), k + n) - length_to(
            texts_of(history),
            k,
        ),
    decreases n,
{
    if n > 0 {
        lemma_chars_between(history, k, n - 1);
        assert(history.skip(k)[n - 1] == history[k + n - 1]);
    }
}

/// Evidence that is too long says how many characters were cut.
pub proof fn law_cut_evidence_says_so(text: Seq<char>, max: nat)
    requires
        text.len() > max,
    ensures
        text.take(max as int).is_prefix_of(capped(text, max)),
        has_text(capped(text, max), decimal((text.len() - max) as nat)),
{
    let a = text.take(max as int);
    let b = "\n[truncated "@;
    let d = decimal((text.len() - max) as nat);
    lemma_has_middle(a + b, d, " chars]"@);
    assert(capped(text, max).subrange(0, a.len() as int) =~= a);
}

/// A cut history says so: the first observation that is left tells how many
/// turns were dropped, before its own text, and every other entry is as it
/// was. `k` is the place of that observation among the entries that are left.
pub proof fn law_the_cut_is_told(fixed: nat, history: Seq<EntryView>, max: nat, k: int)
    ensures
        ({
            let rest = surviving(fixed, history, max);
            let gone = history.len() - rest.len();
            let left = history.skip(gone);
            gone > 0 && 0 <= k < rest.len() && left[k] is Observation && (forall|i: int|
                0 <= i < k ==> (#[trigger] left[i]) is Assistant) ==> {
                &&& rest[k] matches EntryView::Observation(text) && (left[
                    k
                ] matches EntryView::Observation(own) && own.is_suffix_of(text) && text.len()
                    > own.len() && has_text(text, decimal((gone / 2) as nat)))
                &&& forall|i: int|
                    0 <= i < rest.len() && i != k ==> (#[trigger] rest[i]) == left[i]
            }
        }),
{
    let n = dropped_pairs(fixed, history, max);
    let rest = surviving(fixed, history, max);
    law_truncation_drops_as_little_as_it_can(fixed, history, max);
    let kept = history.skip(2 * n as int);
    lemma_noted(kept, truncation_note(n));
    let gone = history.len() - rest.len();
    if gone > 0 {
        assert(gone == 2 * n);
        let left = history.skip(gone);
        assert(left =~= kept);
        if 0 <= k < rest.len() && left[k] is Observation && (forall|i: int|
            0 <= i < k ==> (#[trigger] left[i]) is Assistant) {
            lemma_noted_at(kept, truncation_note(n), k);
            let own = kept[k].text();
            let note = truncation_note(n);
            let text = note + own;
            assert(text.skip(text.len() - own.len()) =~= own);
            reveal_strlit("[history truncated: ");
            lemma_has_middle("[history truncated: "@, decimal(n), " oldest turn(s) dropped]\n"@);
            lemma_has_more(note, own, decimal(n));
        }
    }
}

/// The transcript goes out entry by entry, in order: what the model said as
/// its own words, unless it said nothing, and what it was shown as the user's.
pub proof fn law_the_transcript_goes_out_in_order(
    a: Seq<EntryView>,
    b: Seq<EntryView>,
    text: Seq<char>,
)
    ensures
        entry_messages(a + b) == entry_messages(a) + entry_messages(b),
        text.len() == 0 ==> entry_messages(seq![EntryView::Assistant(text)]).len() == 0,
        text.len() > 0 ==> entry_messages(seq![EntryView::Assistant(text)]) == seq![
            MessageView { role: "assistant"@, content: text },
        ],
        entry_messages(seq![EntryView::Observation(text)]) == seq![
            MessageView { role: "user"@, content: text },
        ],
    decreases b.len(),
{
    reveal_with_fuel(entry_messages, 2);
    let said = seq![EntryView::Assistant(text)];
    assert(said.drop_last() =~= Seq::empty());
    assert(said.last() == EntryView::Assistant(text));
    assert(entry_messages(said) =~= entry_message(EntryView::Assistant(text)));
    let shown = seq![EntryView::Observation(text)];
    assert(shown.drop_last() =~= Seq::empty());
    assert(shown.last() == EntryView::Observation(text));
    assert(entry_messages(shown) =~= entry_message(EntryView::Observation(text)));
    if b.len() > 0 {
        law_the_transcript_goes_out_in_order(a, b.drop_last(), text);
        assert((a + b).drop_last() =~= a + b.drop_last());
        assert((a + b).last() == b.last());
        assert(entry_messages(a + b) =~= entry_messages(a) + entry_messages(b));
    } else {
        assert(a + b =~= a);
        assert(entry_messages(a + b) =~= entry_messages(a) + entry_messages(b));
    }
}

} // verus!
