use fung::detailed::{plan_detailed_proposals, DetailedCandidate};
use fung::live_meeting::DetailedSourceSegment;

fn segment(id: &str, speaker: Option<&str>, start: i64, end: i64, text: &str) -> DetailedSourceSegment {
    DetailedSourceSegment {
        id: id.to_string(),
        speaker_id: speaker.map(|s| s.to_string()),
        start_ms: start,
        end_ms: end,
        text: text.to_string(),
        updated_at: format!("2024-01-01T00:00:0{}Z", id.len()),
        expected_revision: Some(start),
    }
}

fn candidate(speaker: Option<&str>, start: i64, end: i64, text: &str) -> DetailedCandidate {
    DetailedCandidate {
        expected_speaker: speaker.map(|s| s.to_string()),
        start_ms: start,
        end_ms: end,
        text: text.to_string(),
    }
}

#[test]
fn unchanged_text_gives_no_proposal() {
    let segments = vec![segment("a", Some("me"), 0, 1_000, "  hello world ")];
    let candidates = vec![
        candidate(Some("me"), 500, 1_000, "world"),
        candidate(Some("me"), 0, 500, "hello"),
    ];
    let plan = plan_detailed_proposals(&segments, &candidates);
    assert!(plan.proposals.is_empty());
    assert_eq!(plan.unmatched, 0);
}

#[test]
fn only_differences_become_proposals() {
    let segments = vec![
        segment("a", Some("me"), 0, 1_000, "hello world"),
        segment("bb", None, 1_000, 2_000, "foo"),
    ];
    let candidates = vec![
        candidate(Some("me"), 0, 1_000, "hello world"),
        candidate(None, 1_200, 1_800, "bar"),
        candidate(None, 500, 1_500, "straddles both"),
    ];
    let plan = plan_detailed_proposals(&segments, &candidates);
    assert_eq!(plan.unmatched, 1);
    assert_eq!(plan.proposals.len(), 1);
    let p = &plan.proposals[0];
    assert_eq!(p.segment_id, "bb");
    assert_eq!(p.original_text, "foo");
    assert_eq!(p.proposed_text, "bar");
    assert_eq!(p.expected_updated_at, "2024-01-01T00:00:02Z");
    assert_eq!(p.expected_revision, Some(1_000));
}

#[test]
fn candidates_are_joined_in_start_order() {
    let segments = vec![segment("a", None, 0, 3_000, "one two three")];
    let candidates = vec![
        candidate(None, 2_000, 3_000, "three"),
        candidate(None, 0, 1_000, "one"),
        candidate(None, 1_000, 2_000, "too"),
    ];
    let plan = plan_detailed_proposals(&segments, &candidates);
    assert_eq!(plan.unmatched, 0);
    assert_eq!(plan.proposals.len(), 1);
    assert_eq!(plan.proposals[0].proposed_text, "one too three");
}

#[test]
fn a_speaker_mismatch_leaves_the_candidate_unmatched() {
    let segments = vec![segment("a", Some("them"), 0, 1_000, "hi")];
    let candidates = vec![candidate(Some("me"), 0, 1_000, "hey")];
    let plan = plan_detailed_proposals(&segments, &candidates);
    assert_eq!(plan.unmatched, 1);
    assert!(plan.proposals.is_empty());
}

#[test]
fn blank_candidates_propose_nothing() {
    let segments = vec![segment("a", None, 0, 1_000, "hi")];
    let candidates = vec![candidate(None, 0, 1_000, "   ")];
    let plan = plan_detailed_proposals(&segments, &candidates);
    assert_eq!(plan.unmatched, 0);
    assert!(plan.proposals.is_empty());
}
