use fung::local_diarization::{
    concatenated_duration_ms, duration_tolerance_ms, plan_spans, project_turns, ChunkSpan,
    DiarizeTurn,
};
use fung::local_diarization::{select_system_chunks, SliceRow};
use fung::local_diarization::{drift_refusal, speakers_found, SpeakerTurn};
use fung::paths::PathStyle;

fn turn(speaker: &str, start_ms: i64, end_ms: i64) -> DiarizeTurn {
    DiarizeTurn {
        speaker_key: speaker.to_string(),
        display_name: format!("Speaker {speaker}"),
        start_ms,
        end_ms,
    }
}

#[test]
fn contiguous_chunks_lay_end_to_end() {
    let spans = plan_spans(&[(0, 2_000), (2_000, 2_000), (4_000, 1_500)]);
    assert_eq!(
        spans,
        vec![
            ChunkSpan {
                file_start_ms: 0,
                file_end_ms: 2_000,
                recording_start_ms: 0
            },
            ChunkSpan {
                file_start_ms: 2_000,
                file_end_ms: 4_000,
                recording_start_ms: 2_000
            },
            ChunkSpan {
                file_start_ms: 4_000,
                file_end_ms: 5_500,
                recording_start_ms: 4_000
            },
        ]
    );
    assert_eq!(concatenated_duration_ms(&spans), 5_500);
}

#[test]
fn a_dropped_chunk_moves_file_time_away_from_recording_time() {
    let spans = plan_spans(&[(0, 2_000), (2_000, 2_000), (8_000, 2_000)]);
    assert_eq!(spans[2].file_start_ms, 4_000);
    assert_eq!(spans[2].recording_start_ms, 8_000);
}

#[test]
fn a_turn_inside_one_chunk_shifts_by_that_chunks_offset() {
    let spans = plan_spans(&[(0, 2_000), (10_000, 2_000)]);
    let projected = project_turns(&[turn("s:0", 2_500, 3_000)], &spans);
    assert_eq!(projected.len(), 1);
    assert_eq!(
        (projected[0].start_ms, projected[0].end_ms),
        (10_500, 11_000)
    );
}

#[test]
fn a_turn_crossing_a_gap_is_split_not_stretched() {
    let spans = plan_spans(&[(0, 2_000), (10_000, 2_000)]);
    let projected = project_turns(&[turn("s:0", 1_000, 3_000)], &spans);
    assert_eq!(
        projected
            .iter()
            .map(|t| (t.start_ms, t.end_ms))
            .collect::<Vec<_>>(),
        vec![(1_000, 2_000), (10_000, 11_000)]
    );
}

#[test]
fn a_turn_crossing_contiguous_chunks_stays_one_turn() {
    let spans = plan_spans(&[(0, 2_000), (2_000, 2_000)]);
    let projected = project_turns(&[turn("s:0", 1_000, 3_000)], &spans);
    assert_eq!(projected.len(), 1);
    assert_eq!((projected[0].start_ms, projected[0].end_ms), (1_000, 3_000));
}

#[test]
fn two_speakers_meeting_at_a_boundary_are_not_merged() {
    let spans = plan_spans(&[(0, 2_000), (2_000, 2_000)]);
    let projected = project_turns(&[turn("s:0", 0, 2_000), turn("s:1", 2_000, 4_000)], &spans);
    assert_eq!(projected.len(), 2);
    assert_eq!(projected[0].speaker_key, "s:0");
    assert_eq!(projected[1].speaker_key, "s:1");
}

#[test]
fn a_turn_running_past_the_audio_is_clipped() {
    let spans = plan_spans(&[(0, 2_000)]);
    let projected = project_turns(&[turn("s:0", 1_500, 9_000)], &spans);
    assert_eq!(projected.len(), 1);
    assert_eq!(projected[0].end_ms, 2_000);
}

#[test]
fn a_turn_covering_no_audio_is_dropped_rather_than_placed() {
    let spans = plan_spans(&[(0, 2_000)]);
    assert!(project_turns(&[turn("s:0", 5_000, 6_000)], &spans).is_empty());
}

#[test]
fn an_empty_chunk_contributes_nothing() {
    let spans = plan_spans(&[(0, 2_000), (2_000, 0), (4_000, 1_000)]);
    assert_eq!(spans.len(), 2);
    assert_eq!(spans[1].recording_start_ms, 4_000);
}

#[test]
fn a_reversed_turn_is_read_as_its_range_not_discarded() {
    let spans = plan_spans(&[(0, 4_000)]);
    let projected = project_turns(&[turn("s:0", 3_000, 1_000)], &spans);
    assert_eq!(projected.len(), 1);
    assert_eq!((projected[0].start_ms, projected[0].end_ms), (1_000, 3_000));
}

#[test]
fn the_drift_allowance_catches_a_dropped_chunk_but_not_rounding() {
    assert!(
        duration_tolerance_ms(20) < 1_000,
        "a lost 1s chunk must be caught"
    );
    assert!(
        duration_tolerance_ms(20) > 20,
        "a millisecond of rounding per chunk must not be rejected"
    );
    assert!(duration_tolerance_ms(200) > duration_tolerance_ms(20));
}

#[test]
fn nothing_can_be_projected_without_audio() {
    assert!(project_turns(&[turn("s:0", 0, 1_000)], &[]).is_empty());
    assert_eq!(concatenated_duration_ms(&[]), 0);
}

#[test]
fn projected_turns_are_ordered_and_name_their_source() {
    let spans = plan_spans(&[(0, 2_000), (5_000, 2_000)]);
    let projected = project_turns(
        &[turn("s:1", 2_500, 3_000), turn("s:0", 100, 600)],
        &spans,
    );
    assert_eq!(projected.len(), 2);
    assert_eq!((projected[0].start_ms, projected[0].source_turn), (100, 1));
    assert_eq!((projected[1].start_ms, projected[1].source_turn), (5_500, 0));
    assert_eq!(spans[1].to_recording(2_500), 5_500);
    assert_eq!(duration_tolerance_ms(20), 140);
}

fn slice(path: &str, start_ms: i64, sequence_no: i64, duration_ms: Option<i64>) -> SliceRow {
    SliceRow {
        file_path: path.to_string(),
        start_ms,
        sequence_no,
        duration_ms,
    }
}

#[test]
fn far_side_slices_are_taken_by_recorded_time_then_number() {
    let rows = vec![
        slice("/c/system-00003.wav", 16_000, 3, Some(8_000)),
        slice("/c/mic-00001.wav", 0, 1, Some(8_000)),
        slice("/c/system-00002.wav", 8_000, 2, None),
        slice("/c/system-00005.wav", 0, 5, Some(7_000)),
        slice("/c/system-00001.wav", 0, 1, Some(8_000)),
    ];
    let chunks = select_system_chunks(&rows, PathStyle::Posix);
    let order: Vec<(&str, i64, i64)> = chunks
        .iter()
        .map(|c| (c.file_path.as_str(), c.start_ms, c.duration_ms))
        .collect();
    assert_eq!(
        order,
        vec![
            ("/c/system-00001.wav", 0, 8_000),
            ("/c/system-00005.wav", 0, 7_000),
            ("/c/system-00003.wav", 16_000, 8_000),
        ]
    );
}

fn named_turn(key: &str, start_ms: i64) -> SpeakerTurn {
    SpeakerTurn {
        speaker_key: key.to_string(),
        display_name: key.to_string(),
        start_ms,
        end_ms: start_ms + 10,
        source_turn: 0,
        overlap: false,
    }
}

#[test]
fn speakers_are_counted_once_each() {
    let turns = vec![named_turn("s1", 0), named_turn("s2", 10), named_turn("s1", 20), named_turn("s3", 30)];
    assert_eq!(speakers_found(&turns), 3);
    assert_eq!(speakers_found(&[]), 0);
}

#[test]
fn a_concatenation_that_strays_is_not_diarized() {
    assert_eq!(drift_refusal(10_000, 10_104, 2), None, "within 100 + 2 per span");
    assert_eq!(drift_refusal(10_104, 10_000, 2), None);
    assert_eq!(
        drift_refusal(10_000, 10_105, 2).as_deref(),
        Some("ความยาวไฟล์เสียงที่รวมแล้วไม่ตรงกับที่คำนวณไว้ (10000 ms เทียบกับ 10105 ms)              — เวลาของผู้พูดจะคลาดเคลื่อน จึงไม่แยกเสียงผู้พูด")
    );
    assert!(drift_refusal(10_105, 10_000, 2).is_some());
}

#[test]
fn projected_turns_keep_their_speaker_and_stay_on_recorded_audio() {
    // Two chunks with a lost stretch between them on the recording.
    let spans = plan_spans(&[(0, 2_000), (5_000, 2_000)]);
    let turns = [turn("s:0", 500, 3_500), turn("s:1", 3_500, 4_000)];
    let projected = project_turns(&turns, &spans);
    let on_audio = |x: i64| {
        spans.iter().any(|s| {
            s.recording_start_ms <= x && x < s.recording_start_ms + (s.file_end_ms - s.file_start_ms)
        })
    };
    assert_eq!(projected.len(), 3);
    for piece in &projected {
        let source = &turns[piece.source_turn];
        assert_eq!(piece.speaker_key, source.speaker_key);
        assert_eq!(piece.display_name, source.display_name);
        assert!(on_audio(piece.start_ms) && on_audio(piece.end_ms - 1));
        assert!(!(piece.start_ms < 5_000 && piece.end_ms > 2_000), "no piece spans the lost audio");
    }
    assert_eq!((projected[0].start_ms, projected[0].end_ms), (500, 2_000));
    assert_eq!((projected[1].start_ms, projected[1].end_ms), (5_000, 6_500));
    assert_eq!((projected[2].start_ms, projected[2].end_ms), (6_500, 7_000));
}
