use fung::live_meeting::{
    capture_device_id, capture_outcome, capture_preferences_path, channel_for_file_name,
    chunk_file_name, device_ids, finish_capture, human_gib, join_detailed_candidate_texts,
    normalize_device_id, process_capture_sample_batch, sample_i16_to_i16, sample_u16_to_i16,
    samples_for_ms, speaker_id_for, unique_detailed_segment_match, validate_requested_device,
    window_coverage_for_range, CaptureAction, CaptureCursor, CaptureDeviceKind,
    DetailedSourceSegment, GapFillOutcome, MeetingScope, RawChunk, RevisionCandidate,
    RevisionedTrack, SourceCoverageKind, CHANNEL_MIC, CHANNEL_SYSTEM, MAX_BATCH_SOURCES,
};
use fung::live_meeting::{gather_revision_candidates, plan_revision_batch, revision_numbers};
use fung::live_meeting::{
    catch_up_queue, chunks_missing_transcript, revisioned_uncovered_chunks, select_missing_chunks,
    ChunkRow, CoverageMark, SegmentMark,
};
use fung::live_meeting::{describe_devices, join_issues, superseded_revision, track_attribution};
use fung::live_meeting::{disk_message, plan_live_start, start_space_refusal, MIN_FREE_BYTES_TO_START};
use fung::live_meeting::{DiskVerdict, SessionTally, DISK_CHECK_EVERY_CHUNKS, LOW_DISK_WARN_BYTES, MIN_FREE_BYTES_TO_CONTINUE};
use fung::live_meeting::{place_chunk_segments, slice_checksum, window_hypotheses, ReplySegment, WindowReply};
use fung::live_transcript::{
    DecodeWindow, ScheduleError, TranscriptHypothesis, TranscriptUpdate, WindowFragment,
};
use fung::paths::PathStyle;

fn cut_range(action: &CaptureAction) -> Option<(i64, i64)> {
    match action {
        CaptureAction::Cut {
            start_ms, end_ms, ..
        } => Some((*start_ms, *end_ms)),
        CaptureAction::Gap { .. } => None,
    }
}

#[test]
fn capture_sample_queue_holes_are_emitted_as_ordered_media_gaps() {
    let mut cursor = CaptureCursor::new();
    let mut events = process_capture_sample_batch(&mut cursor, 0, &vec![1; 8], 1_000, 4);
    events.extend(process_capture_sample_batch(&mut cursor, 12, &vec![1; 4], 1_000, 4));

    assert_eq!(events.len(), 4);
    assert_eq!(cut_range(&events[0]), Some((0, 4)));
    assert_eq!(cut_range(&events[1]), Some((4, 8)));
    assert!(matches!(
        &events[2],
        CaptureAction::Gap {
            start_ms: 8,
            end_ms: 12,
            reason: "sample_queue_overflow",
        }
    ));
    assert_eq!(cut_range(&events[3]), Some((12, 16)));
    assert_eq!(cursor.expected_sample, 16);
}

#[test]
fn capture_device_keys_are_direction_scoped_and_deterministic() {
    let mic_a = capture_device_id(CaptureDeviceKind::Mic, "USB Mic", 0);
    let mic_b = capture_device_id(CaptureDeviceKind::Mic, "USB Mic", 0);
    let system = capture_device_id(CaptureDeviceKind::SystemLoopback, "USB Mic", 0);

    assert_eq!(mic_a, mic_b);
    assert_ne!(mic_a, system);
    assert!(mic_a.starts_with("mic-"));
    assert!(system.starts_with("system-"));
}

#[test]
fn blank_device_ids_mean_system_default() {
    assert_eq!(normalize_device_id(None), None);
    assert_eq!(normalize_device_id(Some("  ".to_string())), None);
    assert_eq!(
        normalize_device_id(Some(" mic-selected ".to_string())),
        Some("mic-selected".to_string())
    );
}

#[test]
fn a_chunk_filename_maps_only_to_a_real_capture_channel() {
    assert_eq!(channel_for_file_name("mic-00001.wav"), Some(CHANNEL_MIC));
    assert_eq!(
        channel_for_file_name("system-00042.wav"),
        Some(CHANNEL_SYSTEM)
    );
    assert_eq!(channel_for_file_name("other-00001.wav"), None);
    assert_eq!(channel_for_file_name("mic.wav"), None);
    assert_eq!(channel_for_file_name("notes.txt"), None);
}

#[test]
fn a_gap_fill_that_declines_says_why_instead_of_reporting_nothing_to_do() {
    let declined = GapFillOutcome {
        skipped_reason: Some("too many segments to enumerate".into()),
        ..GapFillOutcome::default()
    };
    assert_eq!(declined.chunks_missing_transcript, 0);
    assert!(declined.skipped_reason.is_some());
    assert!(GapFillOutcome::default().skipped_reason.is_none());
}

#[test]
fn a_capture_that_lost_audio_is_never_reported_as_completed() {
    let lossy = capture_outcome(120_000, 3, 1, 0);
    assert!(
        lossy.failure_reason.is_some(),
        "a capture that lost chunks must fail its job"
    );
    assert!(lossy
        .failure_reason
        .unwrap()
        .contains("3 audio chunk(s) or media interval(s) were lost"));
    assert!(lossy.message.contains("เสียงหาย 3 ช่วง"));

    let clean = capture_outcome(120_000, 0, 0, 0);
    assert_eq!(clean.failure_reason, None);
    assert_eq!(clean.message, "บันทึกเสร็จ ความยาว 120 วินาที");
}

#[test]
fn a_stream_fault_is_surfaced_without_failing_an_otherwise_intact_capture() {
    let outcome = capture_outcome(60_000, 0, 2, 0);
    assert_eq!(outcome.failure_reason, None);
    assert!(outcome.message.contains("สตรีมเสียงผิดพลาด 2 ครั้ง"));
}

#[test]
fn an_incomplete_transcript_is_stated_rather_than_implied_complete() {
    let outcome = capture_outcome(60_000, 0, 0, 4);
    assert_eq!(outcome.failure_reason, None);
    assert!(outcome.message.contains("ยังถอดความไม่ได้ 4 ช่วง"));

    let full = capture_outcome(60_000, 0, 0, 0);
    assert!(!full.message.contains("ยังถอดความไม่ได้"));
}

#[test]
fn human_gib_is_readable_at_the_sizes_the_guard_reports() {
    assert_eq!(human_gib(2 * 1024 * 1024 * 1024), "2.0 GB");
    assert_eq!(human_gib(256 * 1024 * 1024), "0.2 GB");
}

fn segment(id: &str, speaker: Option<&str>, start_ms: i64, end_ms: i64, text: &str) -> DetailedSourceSegment {
    DetailedSourceSegment {
        id: id.to_string(),
        speaker_id: speaker.map(str::to_string),
        start_ms,
        end_ms,
        text: text.to_string(),
        updated_at: "u1".to_string(),
        expected_revision: None,
    }
}

#[test]
fn detailed_candidate_alignment_requires_unambiguous_time_or_speaker_evidence() {
    let source = vec![
        segment("mic", Some("speaker-mic"), 100, 300, "ไมค์เดิม"),
        segment("system", Some("speaker-system"), 120, 280, "เสียงระบบเดิม"),
    ];

    assert_eq!(
        unique_detailed_segment_match(&source, 140, 220, Some("speaker-mic"))
            .map(|segment| segment.id.as_str()),
        Some("mic")
    );
    assert!(unique_detailed_segment_match(&source, 140, 220, None).is_none());
    assert!(unique_detailed_segment_match(&source, 400, 500, Some("speaker-mic")).is_none());
}

#[test]
fn detailed_candidate_can_align_a_single_legacy_segment_without_speaker_metadata() {
    let source = vec![segment("legacy", None, 100, 300, "ข้อความเดิม")];

    assert_eq!(
        unique_detailed_segment_match(&source, 120, 240, Some("speaker-mic"))
            .map(|segment| segment.id.as_str()),
        Some("legacy")
    );
}

#[test]
fn detailed_candidate_join_preserves_english_boundaries_without_splitting_thai() {
    assert_eq!(
        join_detailed_candidate_texts(vec!["Hello".to_string(), "world".to_string()]),
        "Hello world"
    );
    assert_eq!(
        join_detailed_candidate_texts(vec!["สวัสดี".to_string(), "ครับ".to_string()]),
        "สวัสดีครับ"
    );
    assert_eq!(
        join_detailed_candidate_texts(vec!["Hello".to_string(), "ไทย".to_string()]),
        "Hello ไทย"
    );
}

// ---------------------------------------------------------------------------
// Further cases
// ---------------------------------------------------------------------------

#[test]
fn slice_names_round_trip_to_their_channel() {
    assert_eq!(chunk_file_name("mic", 7), "mic-00007.wav");
    assert_eq!(chunk_file_name("system", 123_456), "system-123456.wav");
    assert_eq!(channel_for_file_name(&chunk_file_name("system", 42)), Some(CHANNEL_SYSTEM));
    assert_eq!(channel_for_file_name("mic-99999999999.wav"), None);
}

#[test]
fn a_stopped_capture_flushes_or_reports_its_tail() {
    let mut cursor = CaptureCursor::new();
    let first = process_capture_sample_batch(&mut cursor, 0, &vec![5; 6], 1_000, 4);
    assert_eq!(first.len(), 1);
    let tail = finish_capture(cursor, 6, 1_000, 1);
    assert_eq!(tail.len(), 1);
    match &tail[0] {
        CaptureAction::Cut {
            samples,
            start_ms,
            end_ms,
            seq,
        } => {
            assert_eq!(samples, &vec![5, 5]);
            assert_eq!((*start_ms, *end_ms, *seq), (4, 6, 2));
        }
        _ => panic!("the tail is long enough for a slice"),
    }

    let mut short = CaptureCursor::new();
    process_capture_sample_batch(&mut short, 0, &vec![5; 6], 1_000, 4);
    let dropped = finish_capture(short, 9, 1_000, 4);
    assert_eq!(dropped.len(), 2);
    assert_eq!(cut_range(&dropped[0]), Some((4, 6)));
    assert!(matches!(
        &dropped[1],
        CaptureAction::Gap {
            start_ms: 6,
            end_ms: 9,
            reason: "sample_queue_overflow",
        }
    ));

    let mut tiny = CaptureCursor::new();
    process_capture_sample_batch(&mut tiny, 0, &vec![5; 5], 1_000, 4);
    let too_short = finish_capture(tiny, 5, 1_000, 2);
    assert!(matches!(
        &too_short[0],
        CaptureAction::Gap {
            start_ms: 4,
            end_ms: 5,
            reason: "final_tail_too_short",
        }
    ));
}

#[test]
fn samples_already_received_are_not_taken_twice() {
    let mut cursor = CaptureCursor::new();
    process_capture_sample_batch(&mut cursor, 0, &[1, 2, 3], 1_000, 4);
    let actions = process_capture_sample_batch(&mut cursor, 1, &[2, 3, 4, 5], 1_000, 4);
    assert_eq!(actions.len(), 1);
    match &actions[0] {
        CaptureAction::Cut { samples, seq, .. } => {
            assert_eq!(samples, &vec![1, 2, 3, 4]);
            assert_eq!(*seq, 1);
        }
        _ => panic!("a full slice is cut"),
    }
    assert_eq!(cursor.accumulator, vec![5]);
    assert_eq!(cursor.expected_sample, 5);
    assert!(process_capture_sample_batch(&mut cursor, 0, &[1, 2], 1_000, 4).is_empty());
    assert_eq!(samples_for_ms(48_000, 8_000), 384_000);
}

#[test]
fn device_kinds_name_themselves() {
    assert_eq!(CaptureDeviceKind::Mic.key(), "mic");
    assert_eq!(CaptureDeviceKind::SystemLoopback.key(), "system");
    assert_eq!(CaptureDeviceKind::Mic.label(), "ไมโครโฟน");
    assert_eq!(
        CaptureDeviceKind::SystemLoopback.missing_message(),
        "ไม่พบอุปกรณ์เสียงออกที่พร้อมใช้สำหรับ loopback"
    );
    assert_eq!(
        capture_preferences_path(PathStyle::Windows, r"C:\data"),
        r"C:\data\live-capture-preferences.json"
    );
    assert_eq!(sample_i16_to_i16(-7), -7);
    assert_eq!(sample_u16_to_i16(0), i16::MIN);
    assert_eq!(sample_u16_to_i16(32_768), 0);
    assert_eq!(sample_u16_to_i16(u16::MAX), i16::MAX);
    assert_eq!(speaker_id_for("p1", "me"), "p1::speaker::me");
}

#[test]
fn duplicate_device_names_get_distinct_ids_and_requests_are_checked() {
    let names = vec!["USB Mic".to_string(), "USB Mic".to_string(), "Line".to_string()];
    let ids = device_ids(CaptureDeviceKind::Mic, &names);
    assert_eq!(ids[0], capture_device_id(CaptureDeviceKind::Mic, "USB Mic", 0));
    assert_eq!(ids[1], capture_device_id(CaptureDeviceKind::Mic, "USB Mic", 1));
    assert_eq!(ids[2], capture_device_id(CaptureDeviceKind::Mic, "Line", 0));
    assert_ne!(ids[0], ids[1]);
    assert_eq!(ids[0].len(), "mic-".len() + 64);

    let listed = Ok(names);
    assert_eq!(
        validate_requested_device(CaptureDeviceKind::Mic, None, &listed),
        Ok(())
    );
    assert_eq!(
        validate_requested_device(CaptureDeviceKind::Mic, Some(&ids[1]), &listed),
        Ok(())
    );
    assert_eq!(
        validate_requested_device(CaptureDeviceKind::Mic, Some("mic-gone"), &listed),
        Err("อุปกรณ์ไมโครโฟนที่เลือกไม่พร้อมใช้งาน — รีเฟรชรายการแล้วเลือกใหม่".to_string())
    );
    assert_eq!(
        validate_requested_device(
            CaptureDeviceKind::Mic,
            Some("mic-gone"),
            &Err("no host".to_string())
        ),
        Err("no host".to_string())
    );
}

#[test]
fn reports_state_exact_counts_and_durations() {
    let lossy = capture_outcome(-1_500, 2, 0, 0);
    assert_eq!(
        lossy.failure_reason.as_deref(),
        Some("2 audio chunk(s) or media interval(s) were lost; 0 audio stream fault(s)")
    );
    assert_eq!(
        lossy.message,
        "บันทึกจบแต่ไม่ครบ — เสียงหาย 2 ช่วง ความยาวที่บันทึกได้ -1 วินาที"
    );
    assert_eq!(
        capture_outcome(59_999, 0, 1, 3).message,
        "บันทึกเสร็จ ความยาว 59 วินาที (พบสตรีมเสียงผิดพลาด 1 ครั้ง) — ยังถอดความไม่ได้ 3 ช่วง"
    );
    assert_eq!(human_gib(0), "0.0 GB");
    assert_eq!(human_gib(1_181_116_006), "1.1 GB");
    assert_eq!(human_gib(3 * 1024 * 1024 * 1024 / 4), "0.8 GB");
}

fn fragment(id: &str, clip_start_ms: i64, clip_end_ms: i64) -> WindowFragment {
    WindowFragment {
        id: id.to_string(),
        path: format!("/c/{id}.wav"),
        fragment_start_ms: clip_start_ms,
        fragment_end_ms: clip_end_ms,
        clip_start_ms,
        clip_end_ms,
    }
}

#[test]
fn a_decoded_range_is_traced_to_the_fragments_it_touches() {
    let window = DecodeWindow {
        id: "w".to_string(),
        start_ms: 0,
        end_ms: 4_000,
        is_final: false,
        fragments: vec![fragment("a", 0, 2_000), fragment("b", 2_000, 4_000)],
    };
    assert_eq!(window_coverage_for_range(&window, 1_500, 2_500), vec!["a", "b"]);
    assert_eq!(window_coverage_for_range(&window, 2_000, 3_000), vec!["b"]);
    assert!(window_coverage_for_range(&window, 4_000, 5_000).is_empty());
}

fn scope() -> MeetingScope {
    MeetingScope {
        project_id: "p1".to_string(),
        recording_id: "r1".to_string(),
        meeting_session_id: "m1".to_string(),
        source_session_id: "s1".to_string(),
        track_id: "mic".to_string(),
        source_generation: 1,
    }
}

fn chunk(id: &str, start_ms: i64, end_ms: i64) -> RawChunk {
    RawChunk {
        channel: CHANNEL_MIC,
        chunk_id: id.to_string(),
        file_path: format!("/c/{id}.wav"),
        start_ms,
        end_ms,
        byte_size: 10,
        checksum: "abc".to_string(),
    }
}

#[test]
fn a_track_records_coverage_and_fills_holes_with_gaps() {
    let mut track = RevisionedTrack::new(scope());
    track.add_chunk(chunk("c0", 0, 2_000)).unwrap();
    let batch = track.add_chunk(chunk("c1", 3_000, 5_000)).unwrap();
    assert!(batch.windows.is_empty() || batch.windows[0].start_ms >= 0);
    assert_eq!(track.pending_sources.len(), 3);
    assert_eq!(track.pending_sources[1].kind, SourceCoverageKind::Gap);
    assert_eq!(
        (track.pending_sources[1].start_ms, track.pending_sources[1].end_ms),
        (2_000, 3_000)
    );
    assert_eq!(
        track.pending_sources[1].gap_reason.as_deref(),
        Some("capture_interval_unavailable")
    );
    assert_eq!(track.pending_sources[2].id, "coverage::s1::2");
    assert_eq!(track.next_sequence_no, 3);
    assert_eq!(track.last_source_end_ms, 5_000);

    assert_eq!(
        track.add_gap(4_000, 6_000, "device_lost"),
        Err(ScheduleError::InvalidRange)
    );
    assert_eq!(track.add_gap(5_000, 6_000, "device_lost"), Ok(()));
    assert_eq!(track.pending_sources[3].id, "coverage::s1::3");
    assert_eq!(track.last_source_end_ms, 6_000);

    let replay = chunk("c1", 3_000, 5_000);
    assert!(track.replay_pending_chunk(&replay).is_ok());
    assert_eq!(
        track.replay_pending_chunk(&chunk("nope", 0, 1_000)).unwrap_err(),
        ScheduleError::InvalidRange
    );
}

fn thai(start_ms: i64, end_ms: i64, text: &str) -> TranscriptHypothesis {
    TranscriptHypothesis {
        start_ms,
        end_ms,
        text: text.to_string(),
        language: Some("th".to_string()),
        confidence_bits: None,
    }
}

fn candidate(id: &str, start_ms: i64, expected: i64) -> RevisionCandidate {
    RevisionCandidate {
        utterance_id: id.to_string(),
        revision: 1,
        expected_persisted_revision: expected,
        hypothesis: thai(start_ms, start_ms + 500, id),
        coverage_ids: vec!["coverage::s1::0".to_string()],
    }
}

#[test]
fn a_stable_revision_is_committed_and_its_audio_settled() {
    let mut track = RevisionedTrack::new(scope());
    assert!(track.add_chunk(chunk("c0", 0, 2_000)).unwrap().windows.is_empty());
    let batch = track.add_chunk(chunk("c1", 2_000, 4_000)).unwrap();
    assert_eq!(batch.windows.len(), 1);
    let window = &batch.windows[0];
    let updates = track.tracker.observe(window, vec![thai(100, 900, "ก")]);
    assert_eq!(updates.len(), 2);
    let mut candidates = Vec::new();
    gather_revision_candidates(&mut candidates, window, &updates);
    assert_eq!(candidates.len(), 1);
    assert_eq!(candidates[0].coverage_ids, vec!["coverage::s1::0".to_string()]);
    assert_eq!(candidates[0].expected_persisted_revision, 0);
    let plan = plan_revision_batch(&track.pending_sources, candidates, 1)
        .unwrap()
        .unwrap();
    assert_eq!(plan.sources.len(), 2);
    assert_eq!(plan.candidates.len(), 1);
    assert!(track.tracker.has_pending_revision());
    track.settle_committed_batch(&plan);
    assert!(track.pending_sources.is_empty());
    assert!(track.pending_chunks.is_empty());
    assert!(!track.tracker.has_pending_revision());
}

#[test]
fn a_later_candidate_for_an_utterance_replaces_the_earlier() {
    let window = DecodeWindow {
        id: "mic:1:4000".to_string(),
        start_ms: 0,
        end_ms: 4_000,
        is_final: false,
        fragments: vec![WindowFragment {
            id: "coverage::s1::0".to_string(),
            path: "/c/c0.wav".to_string(),
            fragment_start_ms: 0,
            fragment_end_ms: 2_000,
            clip_start_ms: 0,
            clip_end_ms: 2_000,
        }],
    };
    let updates = vec![
        TranscriptUpdate::CommitCandidate {
            utterance_id: "u".to_string(),
            revision: 1,
            expected_persisted_revision: 0,
            hypothesis: thai(100, 900, "ก"),
        },
        TranscriptUpdate::CommitCandidate {
            utterance_id: "far".to_string(),
            revision: 1,
            expected_persisted_revision: 0,
            hypothesis: thai(3_000, 3_500, "ไกล"),
        },
        TranscriptUpdate::CommitCandidate {
            utterance_id: "u".to_string(),
            revision: 2,
            expected_persisted_revision: 0,
            hypothesis: thai(100, 950, "กข"),
        },
    ];
    let mut candidates = Vec::new();
    gather_revision_candidates(&mut candidates, &window, &updates);
    assert_eq!(candidates.len(), 1);
    assert_eq!(candidates[0].revision, 2);
    assert_eq!(candidates[0].hypothesis.text, "กข");
}

#[test]
fn a_batch_plan_orders_revisions_and_bounds_its_sources() {
    let mut track = RevisionedTrack::new(scope());
    assert!(plan_revision_batch(&track.pending_sources, Vec::new(), 10)
        .unwrap()
        .is_none());
    track.add_chunk(chunk("c0", 0, 2_000)).unwrap();
    let plan = plan_revision_batch(
        &track.pending_sources,
        vec![
            candidate("b", 500, 0),
            candidate("skip", 100, -1),
            candidate("a", 500, 2),
            candidate("z", 100, 0),
        ],
        0,
    )
    .unwrap()
    .unwrap();
    let order: Vec<&str> = plan
        .candidates
        .iter()
        .map(|c| c.utterance_id.as_str())
        .collect();
    assert_eq!(order, vec!["z", "a", "b"]);
    assert!(plan_revision_batch(&track.pending_sources, Vec::new(), -1)
        .unwrap()
        .is_none());

    let mut big = RevisionedTrack::new(scope());
    for n in 0..(MAX_BATCH_SOURCES as i64 + 1) {
        let _ = big.add_chunk(chunk(&format!("c{n}"), n * 10, n * 10 + 10));
    }
    assert_eq!(
        plan_revision_batch(&big.pending_sources, Vec::new(), i64::MAX).err(),
        Some("revisioned source batch exceeded the 64-source bound".to_string())
    );
    assert!(plan_revision_batch(&big.pending_sources, Vec::new(), 63)
        .unwrap()
        .is_some());
}

#[test]
fn revision_numbers_follow_the_persisted_one() {
    let first = revision_numbers(0);
    assert_eq!(
        (first.revision, first.supersedes_revision, first.expected_revision),
        (1, None, Some(0))
    );
    let third = revision_numbers(2);
    assert_eq!(
        (third.revision, third.supersedes_revision, third.expected_revision),
        (3, Some(2), Some(2))
    );
}

#[test]
fn human_gib_rounds_through_a_double_like_the_formatter() {
    assert_eq!(human_gib(u64::MAX), "17179869184.0 GB");
    assert_eq!(human_gib(9_007_199_254_740_993), "8388608.0 GB");
    assert_eq!(
        human_gib(u64::MAX),
        format!("{:.1} GB", u64::MAX as f64 / (1024.0 * 1024.0 * 1024.0))
    );
    for bytes in [1_610_612_736u64, 107_374_182, 123_456_789_012_345_678, 9_007_199_254_740_995] {
        assert_eq!(
            human_gib(bytes),
            format!("{:.1} GB", bytes as f64 / (1024.0 * 1024.0 * 1024.0))
        );
    }
}

fn row(id: &str, path: &str, start_ms: i64, end_ms: i64, transcribed: bool) -> ChunkRow {
    ChunkRow {
        id: id.to_string(),
        file_path: path.to_string(),
        start_ms,
        end_ms,
        byte_size: 10,
        checksum: "abc".to_string(),
        transcribed,
    }
}

fn ids(chunks: &[RawChunk]) -> Vec<&str> {
    chunks.iter().map(|c| c.chunk_id.as_str()).collect()
}

#[test]
fn slices_without_text_are_selected_by_channel_speaker_and_time() {
    let rows = vec![
        row("s1", "/c/system-00001.wav", 0, 8_000, false),
        row("m1", "/c/mic-00001.wav", 0, 8_000, false),
        row("m2", "/c/mic-00002.wav", 8_000, 16_000, false),
        row("m3", "/c/mic-00003.wav", 16_000, 24_000, true),
        row("x", "/c/other.wav", 0, 8_000, false),
        row("m4", "/c/mic-00004.wav", 24_000, 24_000, false),
        row("gone", "/c/mic-00005.wav", 32_000, 40_000, false),
    ];
    let segments = vec![
        SegmentMark { speaker_id: "p1::speaker::me".to_string(), start_ms: 9_000 },
        SegmentMark { speaker_id: "p1::speaker::them".to_string(), start_ms: 100 },
        SegmentMark { speaker_id: "p1::speaker::me".to_string(), start_ms: 24_000 },
    ];
    let present = vec![true, true, true, true, true, true, false];
    let missing = select_missing_chunks("p1", &segments, &rows, &present, PathStyle::Posix);
    assert_eq!(ids(&missing), vec!["m1"]);
    assert_eq!(missing[0].channel, CHANNEL_MIC);

    let quiet = select_missing_chunks("p1", &Vec::new(), &rows, &present, PathStyle::Posix);
    assert_eq!(ids(&quiet), vec!["m1", "s1", "m2", "m4"]);

    let nowhere = vec![row("m1", "/nonexistent/fung/mic-00001.wav", 0, 8_000, false)];
    assert!(chunks_missing_transcript("p1", &Vec::new(), &nowhere, PathStyle::Posix).is_empty());
}

#[test]
fn catch_up_replays_pending_then_uncovered_slices_in_time_order() {
    let pending = vec![chunk("b", 2_000, 4_000), chunk("a", 0, 2_000)];
    let uncovered = vec![chunk("a", 0, 2_000), chunk("c", 1_000, 3_000), chunk("d", 0, 1_000)];
    let queue = catch_up_queue(&pending, &uncovered);
    assert_eq!(ids(&queue), vec!["d", "a", "c", "b"]);
}

#[test]
fn uncovered_slices_are_grouped_by_channel_and_ordered() {
    let rows = vec![
        row("m2", "/c/mic-00002.wav", 8_000, 16_000, false),
        row("m1", "/c/mic-00001.wav", 0, 8_000, false),
        row("s1", "/c/system-00001.wav", 0, 8_000, false),
        row("x", "/c/notes.txt", 0, 8_000, false),
        row("m3", "/c/mic-00003.wav", 16_000, 24_000, false),
    ];
    let coverage = vec![
        CoverageMark {
            source_session_id: Some("src-mic".to_string()),
            audio_chunk_id: Some("m3".to_string()),
        },
        CoverageMark {
            source_session_id: Some("elsewhere".to_string()),
            audio_chunk_id: Some("m2".to_string()),
        },
        CoverageMark { source_session_id: None, audio_chunk_id: Some("m1".to_string()) },
    ];
    let sources = vec!["src-mic".to_string(), "src-system".to_string()];
    let both = revisioned_uncovered_chunks(
        &sources,
        &vec!["mic".to_string(), "system".to_string()],
        &coverage,
        &rows,
        PathStyle::Posix,
    );
    assert_eq!(ids(&both.mic), vec!["m1", "m2"]);
    assert_eq!(ids(&both.system), vec!["s1"]);
    let mic_only = revisioned_uncovered_chunks(
        &sources,
        &vec!["mic".to_string()],
        &coverage,
        &rows,
        PathStyle::Posix,
    );
    assert!(mic_only.system.is_empty());
}

fn reply_for(window: &DecodeWindow) -> WindowReply {
    WindowReply {
        error: None,
        window_id: Some(window.id.clone()),
        window_start_ms: Some(window.start_ms),
        window_end_ms: Some(window.end_ms),
        final_window: Some(window.is_final),
        language: Some("th".to_string()),
        segments: vec![
            ReplySegment { start_ms: 300, end_ms: 900, text: "ก".to_string(), confidence_bits: None },
            ReplySegment { start_ms: 0, end_ms: i64::MAX, text: "ข".to_string(), confidence_bits: Some(7) },
        ],
    }
}

#[test]
fn worker_replies_are_checked_and_placed_on_the_timeline() {
    let window = DecodeWindow {
        id: "mic:3:7000".to_string(),
        start_ms: 3_000,
        end_ms: 7_000,
        is_final: false,
        fragments: Vec::new(),
    };
    let hypotheses = window_hypotheses(&window, &reply_for(&window)).unwrap();
    assert_eq!(hypotheses.len(), 2);
    assert_eq!((hypotheses[0].start_ms, hypotheses[0].end_ms), (3_300, 3_900));
    assert_eq!(hypotheses[0].language.as_deref(), Some("th"));
    assert_eq!(hypotheses[1].end_ms, i64::MAX);
    assert_eq!(hypotheses[1].confidence_bits, Some(7));

    let mut other = reply_for(&window);
    other.final_window = Some(true);
    assert_eq!(
        window_hypotheses(&window, &other).unwrap_err(),
        "live worker returned a mismatched decode-window response"
    );
    let mut failed = reply_for(&window);
    failed.error = Some("model crashed".to_string());
    assert_eq!(window_hypotheses(&window, &failed).unwrap_err(), "model crashed");
}

#[test]
fn a_slice_is_recorded_with_its_length_and_sha256() {
    let (len, sum) = slice_checksum(&b"abc".to_vec());
    assert_eq!(len, 3);
    assert_eq!(sum, "ba7816bf8f01cfea414140de5dae2223b00361a396177a9cb410ff61f20015ad");
    let (empty_len, empty_sum) = slice_checksum(&Vec::new());
    assert_eq!(empty_len, 0);
    assert_eq!(empty_sum, "e3b0c44298fc1c149afbf4c8996fb92427ae41e4649b934ca495991b7852b855");
}

#[test]
fn chunk_segments_are_moved_onto_the_timeline_and_attributed() {
    let segments = vec![
        ReplySegment { start_ms: 100, end_ms: 900, text: "ก".to_string(), confidence_bits: None },
        ReplySegment { start_ms: 1_000, end_ms: 2_000, text: "ข".to_string(), confidence_bits: Some(1) },
    ];
    let mine = place_chunk_segments("p1", &chunk("c1", 8_000, 16_000), &segments);
    assert_eq!(mine.len(), 2);
    assert_eq!(mine[0].speaker_id, "p1::speaker::me");
    assert_eq!(mine[0].speaker_label, "เรา");
    assert_eq!((mine[1].start_ms, mine[1].end_ms), (9_000, 10_000));
    let mut far = chunk("s1", 0, 8_000);
    far.channel = CHANNEL_SYSTEM;
    let theirs = place_chunk_segments("p1", &far, &segments);
    assert_eq!(theirs[0].speaker_id, "p1::speaker::them");
    assert_eq!(theirs[0].speaker_label, "อีกฝ่าย");
    assert!(place_chunk_segments("p1", &far, &Vec::new()).is_empty());
}

#[test]
fn a_session_checks_disk_every_sixteen_slices_and_warns_once() {
    let mut tally = SessionTally::new();
    let mut checks = Vec::new();
    for n in 1..=40i64 {
        if tally.record_chunk(n * 1_000) {
            checks.push(n);
        }
    }
    assert_eq!(DISK_CHECK_EVERY_CHUNKS, 16);
    assert_eq!(checks, vec![16, 32]);
    assert_eq!(tally.max_end_ms, 40_000);
    assert_eq!(tally.judge_free_space(LOW_DISK_WARN_BYTES), DiskVerdict::Fine);
    assert_eq!(tally.judge_free_space(LOW_DISK_WARN_BYTES - 1), DiskVerdict::Warn);
    assert_eq!(tally.judge_free_space(LOW_DISK_WARN_BYTES - 1), DiskVerdict::Fine);
    assert_eq!(tally.judge_free_space(MIN_FREE_BYTES_TO_CONTINUE - 1), DiskVerdict::Stop);
    assert_eq!(tally.record_lost(45_000), 1);
    assert_eq!(tally.record_lost(10_000), 2);
    tally.record_stream_fault();
    assert_eq!((tally.lost_chunks, tally.stream_faults, tally.max_end_ms), (2, 1, 45_000));
    assert_eq!(tally.final_duration_ms(30_000), 45_000);
    assert_eq!(tally.final_duration_ms(60_000), 60_000);
}

#[test]
fn a_start_request_is_checked_before_anything_is_written() {
    let none: Result<Vec<String>, String> = Ok(Vec::new());
    let plan = plan_live_start(None, None, Some("  ".to_string()), None, &none, &none).unwrap();
    assert!(plan.capture_system);
    assert_eq!(plan.profile, fung::live_transcript::LiveTranscriptProfile::Chunked);
    assert_eq!(plan.mic_device_id, None);
    assert_eq!(
        plan_live_start(None, Some("fast"), None, None, &none, &none).unwrap_err(),
        "transcript profile must be `chunked` or `revisioned`"
    );
    let mics: Result<Vec<String>, String> = Ok(vec!["USB Mic".to_string()]);
    let usb = capture_device_id(CaptureDeviceKind::Mic, "USB Mic", 0);
    let chosen = plan_live_start(
        Some(false),
        Some("revisioned"),
        Some(format!(" {usb} ")),
        Some("gone".to_string()),
        &mics,
        &Err("no loopback".to_string()),
    )
    .unwrap();
    assert_eq!(chosen.mic_device_id, Some(usb.clone()));
    assert!(!chosen.capture_system);
    assert_eq!(
        plan_live_start(None, None, None, Some("x".to_string()), &none, &Err("no loopback".to_string()))
            .unwrap_err(),
        "no loopback"
    );
    assert!(plan_live_start(None, None, Some("other".to_string()), None, &mics, &none).is_err());
}

#[test]
fn disk_space_messages_name_the_amounts() {
    assert_eq!(start_space_refusal(None), None);
    assert_eq!(start_space_refusal(Some(MIN_FREE_BYTES_TO_START)), None);
    assert_eq!(
        start_space_refusal(Some(1_073_741_824)).unwrap(),
        "พื้นที่ดิสก์เหลือ 1.0 GB ซึ่งน้อยกว่าขั้นต่ำ 2.0 GB สำหรับเริ่มบันทึก — ปล่อยพื้นที่ก่อนเริ่มประชุม"
    );
    assert_eq!(
        disk_message(DiskVerdict::Stop, 107_374_182).unwrap(),
        "พื้นที่ดิสก์เหลือ 0.1 GB — หยุดบันทึกเพื่อรักษาเสียงที่บันทึกไว้แล้ว"
    );
    assert_eq!(
        disk_message(DiskVerdict::Warn, 536_870_912).unwrap(),
        "พื้นที่ดิสก์เหลือน้อย 0.5 GB — บันทึกต่อได้อีกไม่นาน"
    );
    assert_eq!(disk_message(DiskVerdict::Fine, 0), None);
}

#[test]
fn a_failed_commit_is_retried_as_the_same_request() {
    let mut track = RevisionedTrack::new(scope());
    track.add_chunk(chunk("c0", 0, 2_000)).unwrap();
    let first = track
        .take_or_plan_batch(vec![candidate("u", 100, 0)], 0)
        .unwrap()
        .unwrap();
    assert_eq!(first.operation_id.len(), 36);
    assert_eq!(first.revision_ids.len(), 1);
    let operation = first.operation_id.clone();
    let revision = first.revision_ids[0].clone();
    track.hold_for_retry(first);
    let again = track.take_or_plan_batch(Vec::new(), 0).unwrap().unwrap();
    assert_eq!(again.operation_id, operation);
    assert_eq!(again.revision_ids, vec![revision]);
    assert_eq!(again.candidates.len(), 1);
    assert!(track.retry_batch.is_none());
    track.hold_for_retry(again);
    let batch = track.take_or_plan_batch(Vec::new(), 0).unwrap().unwrap();
    track.settle_committed_batch(&batch);
    assert!(track.retry_batch.is_none());
    assert!(track.pending_sources.is_empty());
    assert!(track.take_or_plan_batch(Vec::new(), 0).unwrap().is_none());
}

#[test]
fn transcript_events_name_what_they_supersede_and_their_speaker() {
    assert_eq!(superseded_revision(None), None);
    assert_eq!(superseded_revision(Some(1)), None);
    assert_eq!(superseded_revision(Some(4)), Some(3));
    assert_eq!(track_attribution("mic"), ("ไมโครโฟน", "mic"));
    assert_eq!(track_attribution("system"), ("เสียงระบบ", "system"));
}

#[test]
fn the_device_picker_lists_ids_names_and_the_default() {
    let names = vec!["USB Mic".to_string(), "Built-in".to_string(), "USB Mic".to_string()];
    let list = describe_devices(CaptureDeviceKind::Mic, &names, Some("USB Mic"));
    assert_eq!(list.len(), 3);
    assert_eq!(list[0].id, capture_device_id(CaptureDeviceKind::Mic, "USB Mic", 0));
    assert_eq!(list[2].id, capture_device_id(CaptureDeviceKind::Mic, "USB Mic", 1));
    assert_ne!(list[0].id, list[2].id);
    assert!(list[0].is_default && !list[1].is_default && list[2].is_default);
    assert!(list.iter().all(|d| d.available));
    assert!(describe_devices(CaptureDeviceKind::SystemLoopback, &names, None)
        .iter()
        .all(|d| !d.is_default));
    assert_eq!(join_issues(&Vec::new()), None);
    assert_eq!(
        join_issues(&vec!["a".to_string(), "b".to_string()]).as_deref(),
        Some("a; b")
    );
}

/// Two slices, one per channel, over the same time range.
fn two_channel_rows(mic_transcribed: bool) -> Vec<ChunkRow> {
    let mut mic = row("chunk-mic", "/gap/chunks/mic-00001.wav", 0, 8_000, mic_transcribed);
    mic.byte_size = 9;
    let mut system = row("chunk-system", "/gap/chunks/system-00001.wav", 0, 8_000, false);
    system.byte_size = 12;
    vec![mic, system]
}

fn mark(speaker_key: &str, start_ms: i64) -> SegmentMark {
    SegmentMark { speaker_id: speaker_id_for("gap-project", speaker_key), start_ms }
}

#[test]
fn a_transcribed_chunk_with_no_words_is_not_offered_again() {
    let present = vec![true, true];
    let before = select_missing_chunks("gap-project", &Vec::new(), &two_channel_rows(false), &present, PathStyle::Posix);
    assert_eq!(before.len(), 2);

    let missing = select_missing_chunks("gap-project", &Vec::new(), &two_channel_rows(true), &present, PathStyle::Posix);
    assert_eq!(
        ids(&missing),
        vec!["chunk-system"],
        "only the chunk the transcriber has not seen is still pending"
    );
}

#[test]
fn a_chunk_transcribed_before_the_stamp_existed_is_still_recognised() {
    let segments = vec![mark("me", 10)];
    let missing = select_missing_chunks("gap-project", &segments, &two_channel_rows(false), &vec![true, true], PathStyle::Posix);
    assert_eq!(
        ids(&missing),
        vec!["chunk-system"],
        "an unstamped chunk that has segments is still covered"
    );
}

#[test]
fn a_chunk_is_only_covered_by_text_from_its_own_channel() {
    let present = vec![true, true];
    let missing = select_missing_chunks("gap-project", &Vec::new(), &two_channel_rows(false), &present, PathStyle::Posix);
    assert_eq!(missing.len(), 2);

    let segments = vec![mark("them", 100)];
    let missing = select_missing_chunks("gap-project", &segments, &two_channel_rows(false), &present, PathStyle::Posix);
    assert_eq!(missing.len(), 1, "only the microphone chunk should remain");
    assert_eq!(missing[0].channel, CHANNEL_MIC);
}

#[test]
fn a_chunk_whose_audio_is_gone_is_not_offered_for_transcription() {
    let present = vec![false, true];
    let missing = select_missing_chunks("gap-project", &Vec::new(), &two_channel_rows(false), &present, PathStyle::Posix);
    assert_eq!(missing.len(), 1);
    assert_eq!(
        missing[0].channel, CHANNEL_SYSTEM,
        "a chunk with no file on disk cannot be transcribed and must not be queued"
    );
}

#[test]
fn a_recording_with_full_coverage_reports_no_gaps() {
    let segments = vec![mark("me", 10), mark("them", 20)];
    let missing = select_missing_chunks("gap-project", &segments, &two_channel_rows(false), &vec![true, true], PathStyle::Posix);
    assert!(missing.is_empty(), "a fully transcribed recording has no gaps to fill");
}

#[test]
fn a_repeated_sample_batch_changes_nothing() {
    let mut cursor = CaptureCursor::new();
    let first = process_capture_sample_batch(&mut cursor, 0, &vec![3; 6], 1_000, 4);
    assert_eq!(first.len(), 1);
    let (acc, timeline, expected, seq) = (
        cursor.accumulator.clone(),
        cursor.timeline_samples,
        cursor.expected_sample,
        cursor.local_seq,
    );
    let again = process_capture_sample_batch(&mut cursor, 0, &vec![3; 6], 1_000, 4);
    assert!(again.is_empty());
    let older = process_capture_sample_batch(&mut cursor, 2, &vec![9; 3], 1_000, 4);
    assert!(older.is_empty());
    assert_eq!(cursor.accumulator, acc);
    assert_eq!(cursor.timeline_samples, timeline);
    assert_eq!(cursor.expected_sample, expected);
    assert_eq!(cursor.local_seq, seq);
}

#[test]
fn a_refused_gap_keeps_a_held_retry() {
    let mut track = RevisionedTrack::new(scope());
    track.add_chunk(chunk("c0", 0, 2_000)).unwrap();
    let first = track
        .take_or_plan_batch(vec![candidate("u", 100, 0)], 0)
        .unwrap()
        .unwrap();
    let operation = first.operation_id.clone();
    track.hold_for_retry(first);
    assert_eq!(track.add_gap(1_000, 3_000, "device_lost"), Err(ScheduleError::InvalidRange));
    assert_eq!(track.add_gap(3_000, 3_000, "device_lost"), Err(ScheduleError::InvalidRange));
    assert_eq!(track.retry_batch.as_ref().map(|b| b.operation_id.clone()), Some(operation.clone()));
    assert!(track.replay_pending_chunk(&chunk("nope", 0, 1_000)).is_err());
    assert!(track.add_gap(2_000, 3_000, "device_lost").is_ok());
    track.add_chunk(chunk("c1", 3_000, 5_000)).unwrap();
    assert_eq!(track.retry_batch.as_ref().map(|b| b.operation_id.clone()), Some(operation));
}
