use fung::live_transcript::{
    AudioFragmentRef, DecodeWindow, LiveTranscriptProfile, RevisionTracker, RollingWindowScheduler,
    ScheduleError, TranscriptHypothesis, TranscriptUpdate, MAX_WINDOW_FRAGMENTS,
};

fn fragment(sequence_no: i64, start_ms: i64, end_ms: i64) -> AudioFragmentRef {
    AudioFragmentRef {
        id: format!("chunk-{sequence_no}"),
        path: format!("/fixture/mic-{sequence_no:05}.wav"),
        sequence_no,
        start_ms,
        end_ms,
    }
}

#[test]
fn profile_keeps_chunked_default_and_revisioned_fragments_bounded() {
    assert_eq!(
        LiveTranscriptProfile::parse(None),
        Ok(LiveTranscriptProfile::Chunked)
    );
    assert_eq!(
        LiveTranscriptProfile::parse(Some("revisioned")),
        Ok(LiveTranscriptProfile::Revisioned)
    );
    assert!(LiveTranscriptProfile::parse(Some("unknown")).is_err());
    assert_eq!(LiveTranscriptProfile::Chunked.fragment_ms(), 8_000);
    assert_eq!(LiveTranscriptProfile::Revisioned.fragment_ms(), 2_000);
}

#[test]
fn scheduler_builds_bounded_windows_with_exact_one_second_overlap() {
    let mut scheduler = RollingWindowScheduler::new();
    let first = scheduler.push("mic", fragment(0, 0, 2_000)).unwrap();
    assert!(first.windows.is_empty());
    let second = scheduler.push("mic", fragment(1, 2_000, 4_000)).unwrap();
    assert_eq!(
        (second.windows[0].start_ms, second.windows[0].end_ms),
        (0, 4_000)
    );
    assert_eq!(second.windows[0].fragments.len(), 2);
    let third = scheduler.push("mic", fragment(2, 4_000, 6_000)).unwrap();
    assert!(third.windows.is_empty());
    let fourth = scheduler.push("mic", fragment(3, 6_000, 8_000)).unwrap();
    assert_eq!(
        (fourth.windows[0].start_ms, fourth.windows[0].end_ms),
        (3_000, 7_000)
    );
    assert_eq!(fourth.windows[0].fragments.len(), 3);
    assert_eq!(fourth.windows[0].fragments[0].clip_start_ms, 3_000);
    assert_eq!(fourth.windows[0].fragments[2].clip_end_ms, 7_000);
    assert!(fourth.windows[0].fragments.len() <= MAX_WINDOW_FRAGMENTS);
}

#[test]
fn scheduler_resets_windows_and_reports_source_sequence_or_time_gaps() {
    let mut scheduler = RollingWindowScheduler::new();
    scheduler.push("system", fragment(0, 0, 2_000)).unwrap();
    let batch = scheduler.push("system", fragment(2, 4_000, 6_000)).unwrap();
    assert_eq!(
        batch.gap.as_ref().map(|gap| gap.expected_sequence_no),
        Some(1)
    );
    assert_eq!(
        batch.gap.as_ref().map(|gap| gap.observed_sequence_no),
        Some(2)
    );
    assert!(
        batch.windows.is_empty(),
        "a decode window cannot cross an unaccounted gap"
    );
    assert_eq!(
        scheduler
            .push("system", fragment(1, 5_000, 7_000))
            .unwrap_err(),
        ScheduleError::SequenceWentBackwards
    );
}

#[test]
fn stop_flushes_a_bounded_tail_only_once() {
    let mut scheduler = RollingWindowScheduler::new();
    scheduler.push("mic", fragment(0, 0, 2_000)).unwrap();
    let tail = scheduler.flush("mic").unwrap().unwrap();
    assert!(tail.is_final);
    assert_eq!((tail.start_ms, tail.end_ms), (0, 2_000));
    assert!(scheduler.flush("mic").unwrap().is_none());
}

#[test]
fn a_fragment_that_is_too_long_or_reversed_is_refused() {
    let mut scheduler = RollingWindowScheduler::new();
    assert_eq!(
        scheduler.push("mic", fragment(0, 0, 2_001)).unwrap_err(),
        ScheduleError::FragmentTooLong
    );
    assert_eq!(
        scheduler.push("mic", fragment(0, 2_000, 2_000)).unwrap_err(),
        ScheduleError::InvalidRange
    );
    // Nothing was admitted: the first real fragment still starts the source.
    let batch = scheduler.push("mic", fragment(0, 0, 2_000)).unwrap();
    assert!(batch.gap.is_none());
}

#[test]
fn window_ids_name_the_source_and_the_windows_end() {
    let mut scheduler = RollingWindowScheduler::new();
    scheduler.push("mic", fragment(0, 0, 2_000)).unwrap();
    let batch = scheduler.push("mic", fragment(1, 2_000, 4_000)).unwrap();
    let window = &batch.windows[0];
    assert!(window.id.contains("mic"), "{}", window.id);
    assert!(!window.is_final);
    assert_eq!(window.fragments[0].id, "chunk-0");
    assert_eq!(window.fragments[1].clip_end_ms, 4_000);
    scheduler.reset();
    let restarted = scheduler.push("mic", fragment(7, 10_000, 12_000)).unwrap();
    assert!(restarted.gap.is_none(), "a reset source starts afresh");
}

fn hypothesis(start_ms: i64, end_ms: i64, text: &str) -> TranscriptHypothesis {
    TranscriptHypothesis {
        start_ms,
        end_ms,
        text: text.to_string(),
        language: Some("th".to_string()),
        confidence_bits: None,
    }
}

fn window(id: &str, start_ms: i64, end_ms: i64) -> DecodeWindow {
    DecodeWindow {
        id: id.to_string(),
        start_ms,
        end_ms,
        is_final: false,
        fragments: Vec::new(),
    }
}

#[test]
fn tracker_matches_by_time_and_emits_commit_candidate_only_after_stability() {
    let mut tracker = RevisionTracker::new();
    let first = tracker.observe(
        &window("w1", 0, 4_000),
        vec![hypothesis(300, 3_800, "สวัสดี")],
    );
    let id = match &first[0] {
        TranscriptUpdate::Provisional {
            utterance_id,
            revision,
            ..
        } => {
            assert_eq!(*revision, 1);
            utterance_id.clone()
        }
        other => panic!("unexpected first update: {other:?}"),
    };
    assert!(!first
        .iter()
        .any(|update| matches!(update, TranscriptUpdate::CommitCandidate { .. })));
    let stable = tracker.observe(
        &window("w2", 0, 4_000),
        vec![hypothesis(300, 3_800, "สวัสดี")],
    );
    assert!(stable.iter().any(|update| matches!(update, TranscriptUpdate::CommitCandidate { utterance_id, revision: 1, expected_persisted_revision: 0, .. } if utterance_id == &id)));
    tracker.mark_committed(&id, 1, "สวัสดี").unwrap();
    let repeated = tracker.observe(
        &window("w3", 0, 4_000),
        vec![hypothesis(300, 3_800, "สวัสดี")],
    );
    assert!(!repeated
        .iter()
        .any(|update| matches!(update, TranscriptUpdate::Provisional { .. })));
    assert!(tracker.mark_committed(&id, 3, "ผิดลำดับ").is_err());
}

#[test]
fn same_text_at_a_distinct_time_is_a_distinct_utterance() {
    let mut tracker = RevisionTracker::new();
    let first = tracker.observe(&window("w1", 0, 4_000), vec![hypothesis(200, 700, "ใช่")]);
    let first_id = match &first[0] {
        TranscriptUpdate::Provisional { utterance_id, .. } => utterance_id,
        _ => unreachable!(),
    };
    let repeated = tracker.observe(
        &window("w2", 3_000, 7_000),
        vec![hypothesis(4_200, 4_700, "ใช่")],
    );
    let second_id = match &repeated[0] {
        TranscriptUpdate::Provisional { utterance_id, .. } => utterance_id,
        _ => unreachable!(),
    };
    assert_ne!(first_id, second_id);
}

#[test]
fn tracker_discards_omitted_uncommitted_provisionals_explicitly() {
    let mut tracker = RevisionTracker::new();
    let first = tracker.observe(
        &window("w1", 0, 4_000),
        vec![hypothesis(200, 900, "คำชั่วคราว")],
    );
    let id = match &first[0] {
        TranscriptUpdate::Provisional { utterance_id, .. } => utterance_id.clone(),
        _ => unreachable!(),
    };
    tracker.observe(&window("w2", 3_000, 7_000), Vec::new());
    let updates = tracker.observe(&window("w3", 6_000, 10_000), Vec::new());
    assert!(updates.iter().any(|update| matches!(update, TranscriptUpdate::Discard { utterance_id, .. } if utterance_id == &id)));
}

#[test]
fn tracker_prunes_committed_hypotheses_outside_the_matching_window() {
    let mut tracker = RevisionTracker::new();
    let first = tracker.observe(
        &window("w1", 0, 4_000),
        vec![hypothesis(500, 1_000, "สวัสดี")],
    );
    let id = match &first[0] {
        TranscriptUpdate::Provisional { utterance_id, .. } => utterance_id.clone(),
        _ => unreachable!(),
    };
    tracker.mark_committed(&id, 1, "สวัสดี").unwrap();

    tracker.observe(&window("w2", 7_000, 8_000), Vec::new());

    assert!(!tracker.is_tracking(&id));
}

#[test]
fn tracker_names_new_utterances_by_window_ordinal_and_start() {
    let mut tracker = RevisionTracker::new();
    let updates = tracker.observe(
        &window("mic:1:4000", 0, 4_000),
        vec![hypothesis(2_500, 3_500, "สอง"), hypothesis(-5, 100, "นอก"), hypothesis(100, 900, "หนึ่ง")],
    );
    let ids: Vec<String> = updates
        .iter()
        .filter_map(|update| match update {
            TranscriptUpdate::Provisional { utterance_id, .. } => Some(utterance_id.clone()),
            _ => None,
        })
        .collect();
    assert_eq!(ids, vec!["utt:mic:1:4000:0:100".to_string(), "utt:mic:1:4000:1:2500".to_string()]);
}

#[test]
fn tracker_rejects_unknown_and_out_of_order_commits() {
    let mut tracker = RevisionTracker::new();
    assert_eq!(
        tracker.mark_committed("nobody", 1, "x"),
        Err("unknown provisional utterance".to_string())
    );
    let first = tracker.observe(&window("w1", 0, 4_000), vec![hypothesis(100, 900, "ก")]);
    let id = match &first[0] {
        TranscriptUpdate::Provisional { utterance_id, .. } => utterance_id.clone(),
        _ => unreachable!(),
    };
    assert_eq!(
        tracker.mark_committed(&id, 2, "ก"),
        Err("persisted transcript revision is not monotonic".to_string())
    );
    assert!(tracker.has_pending_revision());
    assert_eq!(tracker.mark_committed(&id, 1, "ก"), Ok(()));
    assert!(!tracker.has_pending_revision());
    assert_eq!(tracker.mark_committed(&id, 2, "ก"), Ok(()));
}

#[test]
fn early_ending_hypothesis_is_offered_once_and_again_after_a_failed_commit() {
    let mut tracker = RevisionTracker::new();
    let first = tracker.observe(&window("w1", 0, 4_000), vec![hypothesis(100, 900, "ก")]);
    let candidates = |updates: &Vec<TranscriptUpdate>| {
        updates
            .iter()
            .filter(|update| matches!(update, TranscriptUpdate::CommitCandidate { .. }))
            .count()
    };
    assert_eq!(candidates(&first), 1);
    let id = match &first[0] {
        TranscriptUpdate::Provisional { utterance_id, .. } => utterance_id.clone(),
        _ => unreachable!(),
    };
    let again = tracker.observe(&window("w2", 0, 4_000), vec![hypothesis(100, 900, "ก")]);
    assert_eq!(candidates(&again), 0);
    tracker.mark_commit_failed(&id);
    let retry = tracker.observe(&window("w3", 0, 4_000), vec![hypothesis(100, 900, "ก")]);
    assert_eq!(candidates(&retry), 1);
}

#[test]
fn revised_text_raises_the_display_revision() {
    let mut tracker = RevisionTracker::new();
    tracker.observe(&window("w1", 0, 4_000), vec![hypothesis(300, 3_800, "สวัส")]);
    let revised = tracker.observe(&window("w2", 0, 4_000), vec![hypothesis(400, 3_900, "สวัสดี")]);
    assert!(matches!(&revised[0], TranscriptUpdate::Provisional { revision: 2, .. }));
}

#[test]
fn discard_uncommitted_keeps_only_committed_utterances() {
    let mut tracker = RevisionTracker::new();
    let first = tracker.observe(
        &window("w1", 0, 4_000),
        vec![hypothesis(100, 900, "ก"), hypothesis(2_000, 3_500, "ข")],
    );
    let ids: Vec<String> = first
        .iter()
        .filter_map(|update| match update {
            TranscriptUpdate::Provisional { utterance_id, .. } => Some(utterance_id.clone()),
            _ => None,
        })
        .collect();
    tracker.mark_committed(&ids[0], 1, "ก").unwrap();
    let discarded = tracker.discard_uncommitted();
    assert_eq!(discarded.len(), 1);
    assert!(matches!(&discarded[0], TranscriptUpdate::Discard { utterance_id, revision: 1 } if utterance_id == &ids[1]));
    assert!(tracker.is_tracking(&ids[0]));
    assert!(!tracker.is_tracking(&ids[1]));
}

#[test]
fn windows_keep_three_second_spacing_across_pushes() {
    let mut scheduler = RollingWindowScheduler::new();
    let mut starts = Vec::new();
    for i in 0..8i64 {
        let batch = scheduler.push("mic", fragment(i, i * 1_500, i * 1_500 + 1_500)).unwrap();
        assert!(batch.gap.is_none());
        for window in &batch.windows {
            assert_eq!(window.end_ms - window.start_ms, 4_000);
            assert!(!window.is_final);
            assert!(window.fragments.len() >= 2);
            starts.push(window.start_ms);
        }
    }
    assert_eq!(starts, vec![0, 3_000, 6_000]);
}

#[test]
fn after_a_reset_any_short_fragment_starts_afresh() {
    let mut scheduler = RollingWindowScheduler::new();
    scheduler.push("mic", fragment(0, 0, 2_000)).unwrap();
    let before = scheduler.push("mic", fragment(1, 2_000, 4_000)).unwrap();
    assert_eq!(before.windows.len(), 1);
    scheduler.reset();
    let batch = scheduler.push("mic", fragment(0, 100, 1_900)).unwrap();
    assert!(batch.gap.is_none());
    assert!(batch.windows.is_empty());
    scheduler.push("mic", fragment(1, 1_900, 3_900)).unwrap();
    let after = scheduler.push("mic", fragment(2, 3_900, 5_000)).unwrap();
    assert_eq!(after.windows.len(), 1);
    assert_eq!(after.windows[0].start_ms, 100);
    assert_ne!(after.windows[0].id, before.windows[0].id);
}

#[test]
fn an_unchanged_hypothesis_is_not_shown_again() {
    let mut tracker = RevisionTracker::new();
    let first = tracker.observe(&window("w1", 0, 4_000), vec![hypothesis(300, 3_800, "ครับ")]);
    assert!(matches!(&first[0], TranscriptUpdate::Provisional { revision: 1, .. }));
    let again = tracker.observe(&window("w2", 0, 4_000), vec![hypothesis(300, 3_800, "ครับ")]);
    assert!(!again.iter().any(|update| matches!(update, TranscriptUpdate::Provisional { .. })));
    let changed = tracker.observe(&window("w3", 0, 4_000), vec![hypothesis(300, 3_800, "ค่ะ")]);
    assert!(changed
        .iter()
        .any(|update| matches!(update, TranscriptUpdate::Provisional { revision: 2, .. })));
}

#[test]
fn every_pushed_window_is_tiled_by_two_or_three_fragments() {
    let mut scheduler = RollingWindowScheduler::new();
    let mut seen = 0;
    let lengths = [2_000i64, 1_500, 2_000, 1_500, 2_000, 1_500, 2_000, 2_000];
    let mut start = 0i64;
    for (i, len) in lengths.iter().enumerate() {
        let batch = scheduler.push("mic", fragment(i as i64, start, start + len)).unwrap();
        start += len;
        for window in &batch.windows {
            seen += 1;
            assert!(window.fragments.len() >= 2 && window.fragments.len() <= MAX_WINDOW_FRAGMENTS);
            let mut at = window.start_ms;
            for clip in &window.fragments {
                assert_eq!(clip.clip_start_ms, at);
                assert!(clip.clip_end_ms > clip.clip_start_ms);
                at = clip.clip_end_ms;
            }
            assert_eq!(at, window.end_ms);
        }
    }
    assert_eq!(seen, 4);
}
