use fung::transcript::{correction_records, plan_human_revision, plan_segment_correction, transcript_view};
use fung::transcript::{MANUAL_CORRECTION_POLICY, SEGMENT_CORRECTED_EVENT};
use fung::transcript::{CorrectionError, CurrentRevision, SegmentRow, SpeakerRow};

fn segment(recording_id: &str, index: i64, speaker: Option<&str>) -> SegmentRow {
    SegmentRow {
        id: format!("{recording_id}-s{index}"),
        project_id: "p1".to_string(),
        recording_id: recording_id.to_string(),
        speaker_id: speaker.map(str::to_string),
        start_ms: index * 1000,
        end_ms: index * 1000 + 900,
        text: format!("บรรทัด {index}"),
        confidence_bits: Some(0.9f64.to_bits()),
        created_at: "t".to_string(),
    }
}

/// The rows of one recording as the store hands them back: newest first.
fn rows_of(recording_id: &str, count: i64) -> Vec<SegmentRow> {
    (0..count).rev().map(|index| segment(recording_id, index, None)).collect()
}

#[test]
fn a_selected_recording_is_read_without_other_recordings() {
    let view = transcript_view("p1", "r3", true, &Vec::new(), rows_of("r3", 400), 1000).unwrap();
    assert_eq!(view.segments.len(), 400);
    assert!(view.segments.iter().all(|segment| segment.row.recording_id == "r3"));
    assert!(!view.capped, "the selected recording is below the ceiling");
    assert!(view.capped_recording_ids.is_empty());
}

#[test]
fn an_intact_transcript_reports_nothing_to_warn_about() {
    let view = transcript_view("p1", "r0", true, &Vec::new(), rows_of("r0", 120), 1000).unwrap();
    assert_eq!(view.segments.len(), 120);
    assert!(!view.capped);
    assert!(view.capped_recording_ids.is_empty());
}

#[test]
fn transcript_view_rejects_a_recording_owned_by_another_project() {
    let error = transcript_view("different-project", "r0", false, &Vec::new(), Vec::new(), 1000)
        .unwrap_err();
    assert!(error.contains("ไม่พบการบันทึก"));
    assert_eq!(error, "ไม่พบการบันทึก r0 ในโปรเจกต์ different-project");
}

#[test]
fn segments_are_shown_in_start_order_with_their_speakers_names() {
    let mut rows = vec![
        segment("r1", 2, Some("p1::speaker::them")),
        segment("r1", 0, Some("p1::speaker::me")),
        segment("r1", 1, None),
        segment("r1", 3, Some("p1::speaker::ghost")),
    ];
    // Two rows that start together keep the order they were read in.
    let mut twin = segment("r1", 1, Some("p1::speaker::me"));
    twin.id = "r1-twin".to_string();
    rows.push(twin);
    let speakers = vec![
        SpeakerRow { id: Some("p1::speaker::me".to_string()), display_name: Some("เรา".to_string()) },
        SpeakerRow { id: Some("p1::speaker::them".to_string()), display_name: Some("อีกฝ่าย".to_string()) },
        SpeakerRow { id: Some("p1::speaker::them".to_string()), display_name: Some("คุณเอ".to_string()) },
        SpeakerRow { id: Some("p1::speaker::ghost".to_string()), display_name: None },
    ];
    let view = transcript_view("p1", "r1", true, &speakers, rows, 7).unwrap();
    let ids: Vec<&str> = view.segments.iter().map(|s| s.row.id.as_str()).collect();
    assert_eq!(ids, vec!["r1-s0", "r1-s1", "r1-twin", "r1-s2", "r1-s3"]);
    let names: Vec<Option<&str>> = view.segments.iter().map(|s| s.speaker_name.as_deref()).collect();
    assert_eq!(names, vec![Some("เรา"), None, Some("เรา"), Some("คุณเอ"), None]);
    assert_eq!(view.cap, 7);
    assert_eq!(view.segments[0].row.confidence_bits, Some(0.9f64.to_bits()));
}

fn stored_segment() -> SegmentRow {
    let mut row = segment("r1", 0, Some("p1::speaker::me"));
    row.id = "s1".to_string();
    row.text = "ข้อความเดิม".to_string();
    row.created_at = "segment-created".to_string();
    row
}

#[test]
fn manual_correction_rejects_empty_text_and_wrong_recording() {
    match plan_segment_correction("r1", "s1", "  ", Some(stored_segment())) {
        Err(CorrectionError::InvalidInput(message)) => assert!(message.contains("ต้องไม่ว่าง")),
        other => panic!("expected an empty-text refusal, got {other:?}"),
    }
    match plan_segment_correction("missing", "s1", "ใหม่", None) {
        Err(CorrectionError::InvalidInput(message)) => {
            assert!(message.contains("ไม่พบ transcript segment"));
            assert_eq!(message, "ไม่พบ transcript segment s1 ในการบันทึก missing");
        }
        other => panic!("expected a missing-segment refusal, got {other:?}"),
    }
}

#[test]
fn a_correction_keeps_the_segment_and_the_text_it_replaces() {
    let plan = plan_segment_correction("r1", "s1", "  ข้อความแก้ไข ", Some(stored_segment()))
        .unwrap()
        .unwrap();
    assert_eq!(plan.segment.text, "ข้อความแก้ไข");
    assert_eq!(plan.original_text, "ข้อความเดิม");
    assert_eq!(plan.segment.id, "s1");
    assert_eq!(plan.segment.created_at, "segment-created");
    assert_eq!(plan.segment.speaker_id.as_deref(), Some("p1::speaker::me"));
    assert!(plan_segment_correction("r1", "s1", " ข้อความเดิม", Some(stored_segment()))
        .unwrap()
        .is_none(), "the same text is no correction");
}

fn current(revision: i64) -> CurrentRevision {
    CurrentRevision {
        revision,
        raw_text: "raw".to_string(),
        language: Some("th".to_string()),
        confidence_bits: None,
        start_ms: 10,
        end_ms: 900,
        model_run_id: Some("run-1".to_string()),
    }
}

#[test]
fn a_human_revision_supersedes_the_current_one() {
    let r = plan_human_revision("p1", "r1", "p1", "r1", "u1", "rev-9", "แก้แล้ว", current(3)).unwrap();
    assert_eq!(r.revision, 4);
    assert_eq!(r.supersedes_revision, Some(3));
    assert_eq!(r.expected_revision, Some(3));
    assert_eq!(r.raw_text, "raw");
    assert_eq!(r.effective_text, "แก้แล้ว");
    assert_eq!(r.review_state, "reviewed");
    assert_eq!(r.id, "rev-9");
    assert_eq!(r.utterance_id, "u1");
    assert_eq!(r.model_run_id.as_deref(), Some("run-1"));

    match plan_human_revision("p1", "r1", "p2", "r1", "u1", "rev", "x", current(3)) {
        Err(CorrectionError::Storage(m)) => {
            assert_eq!(m, "current transcript revision scope does not match selection")
        }
        other => panic!("expected a scope refusal, got {other:?}"),
    }
    match plan_human_revision("p1", "r1", "p1", "r1", "u1", "rev", "x", current(i64::MAX)) {
        Err(CorrectionError::Storage(m)) => assert_eq!(m, "transcript revision is exhausted"),
        other => panic!("expected exhaustion, got {other:?}"),
    }
}

#[test]
fn a_manual_correction_leaves_an_accepted_proposal_and_an_audit_event() {
    let correction = plan_segment_correction("r1", "s1", "  ข้อความแก้ไข ", Some(stored_segment()))
        .unwrap()
        .unwrap();
    let (proposal, audit) = correction_records("p1", "r1", &correction, "2024-05-01T10:00:00Z");
    assert_eq!(proposal.id.len(), 36);
    assert_eq!(proposal.project_id, "p1");
    assert_eq!(proposal.segment_id, "s1");
    assert_eq!(proposal.original_text, correction.original_text);
    assert_eq!(proposal.proposed_text, "ข้อความแก้ไข");
    assert_eq!(proposal.policy, MANUAL_CORRECTION_POLICY);
    assert_eq!(proposal.policy, "manual_user_correction");
    assert_eq!(proposal.status, "accepted");
    assert_eq!(proposal.reviewed_at, "2024-05-01T10:00:00Z");
    assert_eq!(proposal.created_at, "2024-05-01T10:00:00Z");
    assert_eq!(proposal.updated_at, "2024-05-01T10:00:00Z");
    assert_eq!(audit.id.len(), 36);
    assert_ne!(audit.id, proposal.id);
    assert_eq!(audit.project_id, "p1");
    assert_eq!(audit.event_type, SEGMENT_CORRECTED_EVENT);
    assert_eq!(audit.event_type, "transcript.segment.corrected");
    assert_eq!(audit.actor, "user");
    assert_eq!(audit.recording_id, "r1");
    assert_eq!(audit.segment_id, "s1");
    assert_eq!(audit.proposal_id, proposal.id);
    assert_eq!(audit.policy, MANUAL_CORRECTION_POLICY);
    assert_eq!(audit.created_at, "2024-05-01T10:00:00Z");
}
