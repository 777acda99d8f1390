//! The transcript that the model sees.

use web_agent_research::shared::agent_loop::context::{
    assemble, cap_evidence, goal_message, truncate_history, HistoryEntry,
};
use web_agent_research::shared::agent_loop::{LoopBudget, LoopInput};
use web_agent_research::shared::types::synthesis::SynthesisSize;

fn input() -> LoopInput {
    LoopInput {
        goal: "What is the Obscura engine?".to_owned(),
        size: SynthesisSize::Medium,
        allowed_tools: vec!["search".to_owned()],
    }
}

fn budget_for(max_context_chars: usize) -> LoopBudget {
    LoopBudget {
        max_context_chars,
        ..LoopBudget::default()
    }
}

fn pair(n: usize) -> Vec<HistoryEntry> {
    vec![
        HistoryEntry::Assistant(format!("thinking {n}")),
        HistoryEntry::Observation(format!("TOOL RESULTS:\nresult {n}")),
    ]
}

#[test]
fn layout_is_system_goal_then_history() {
    let mut history = Vec::new();
    history.extend(pair(1));
    let messages = assemble("sys", &input(), &history, &LoopBudget::default());
    assert_eq!(messages.len(), 4);
    assert_eq!(messages[0].role, "system");
    assert_eq!(messages[0].content, "sys");
    assert_eq!(messages[1].role, "user");
    assert!(messages[1].content.contains("What is the Obscura engine?"));
    assert!(messages[1].content.contains("medium"));
    assert_eq!(messages[2].role, "assistant");
    assert_eq!(messages[3].role, "user");
}

#[test]
fn empty_history_is_exactly_two_messages() {
    let messages = assemble("sys", &input(), &[], &LoopBudget::default());
    assert_eq!(messages.len(), 2);
}

#[test]
fn empty_assistant_output_is_skipped() {
    let history = vec![
        HistoryEntry::Assistant(String::new()),
        HistoryEntry::Observation("TOOL RESULTS:\n[x search]: ok".to_owned()),
    ];
    let messages = assemble("sys", &input(), &history, &LoopBudget::default());
    assert_eq!(messages.len(), 3);
    assert_eq!(messages[2].role, "user");
}

#[test]
fn truncation_drops_oldest_and_marks_survivor() {
    let mut history = Vec::new();
    for n in 1..=4 {
        history.extend(pair(n));
    }
    let full = assemble("sys", &input(), &history, &LoopBudget::default());
    assert_eq!(full.len(), 2 + 8);
    let tiny = budget_for(120);
    let messages = assemble("sys", &input(), &history, &tiny);
    assert_eq!(messages[0].content, "sys");
    assert!(messages[1].content.contains("What is the Obscura engine?"));
    assert!(
        messages.len() < full.len(),
        "truncation must shrink the transcript"
    );
    let oldest_observation = messages
        .iter()
        .skip(2)
        .find(|message| message.role == "user")
        .expect("one observation must survive");
    assert!(
        oldest_observation
            .content
            .starts_with("[history truncated:"),
        "marker missing: {}",
        oldest_observation.content
    );
    assert!(
        !messages
            .iter()
            .any(|message| message.content.contains("result 1")),
        "oldest pair must drop first"
    );
}

#[test]
fn single_pair_survives_even_over_cap() {
    let history = pair(1);
    let tiny = budget_for(10);
    let messages = assemble("sys", &input(), &history, &tiny);
    assert!(messages
        .iter()
        .any(|message| message.content.contains("result 1")));
}

#[test]
fn cap_evidence_marks_removed_count() {
    let text = "abcdefghij";
    assert_eq!(cap_evidence(text, 10), "abcdefghij");
    assert_eq!(cap_evidence(text, 4), "abcd\n[truncated 6 chars]");
}

#[test]
fn capping_counts_characters_not_bytes() {
    assert_eq!(cap_evidence("ééé", 3), "ééé");
    assert_eq!(cap_evidence("éééa", 3), "ééé\n[truncated 1 chars]");
    assert_eq!(cap_evidence("abc", 0), "\n[truncated 3 chars]");
}

#[test]
fn goal_message_names_goal_and_size() {
    let text = goal_message(&input());
    assert!(text.contains("What is the Obscura engine?"));
    assert!(text.contains("medium"));
}

#[test]
fn prompt_and_goal_survive_the_smallest_cap() {
    let mut history = Vec::new();
    for n in 1..=6 {
        history.extend(pair(n));
    }
    let messages = assemble("system prompt", &input(), &history, &budget_for(1));
    assert_eq!(messages[0].content, "system prompt");
    assert_eq!(messages[1].content, goal_message(&input()));
    assert!(messages
        .iter()
        .any(|message| message.content.contains("result 6")));
}

#[test]
fn truncation_keeps_all_that_fits() {
    let mut history = Vec::new();
    for n in 1..=3 {
        history.extend(pair(n));
    }
    let (kept, dropped) = truncate_history(3, 10, &history, &budget_for(10_000));
    assert_eq!(kept, history);
    assert!(!dropped);
    let (kept, dropped) = truncate_history(3, 10, &history, &budget_for(75));
    assert!(dropped);
    assert!(kept.len() < history.len());
}
