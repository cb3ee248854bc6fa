use fung::coordinator::{
    coordinator_step, initial_state, CoordinatorAction, CoordinatorEvent, CoordinatorState,
    DegradeReason, FaultKind,
};
use fung::live_meeting::{DISK_CHECK_EVERY_CHUNKS, LOW_DISK_WARN_BYTES, MIN_FREE_BYTES_TO_CONTINUE};

fn step(s: &CoordinatorState, e: CoordinatorEvent) -> (CoordinatorState, Vec<CoordinatorAction>) {
    coordinator_step(s, &e)
}

#[test]
fn a_chunk_is_appended_to_the_ledger_before_it_is_transcribed() {
    let s = initial_state(false, true);
    let (next, actions) = step(&s, CoordinatorEvent::Chunk { seq: 7, end_ms: 5_000 });
    assert_eq!(actions.len(), 2);
    assert!(matches!(actions[0], CoordinatorAction::AppendToLedger { seq: 7 }));
    assert!(matches!(actions[1], CoordinatorAction::Transcribe { seq: 7 }));
    assert_eq!(next.max_end_ms, 5_000);
    assert_eq!(next.chunks_since_disk_check, 1);
}

#[test]
fn a_revisioned_chunk_goes_to_the_track_after_the_ledger() {
    let s = initial_state(true, true);
    let (_, actions) = step(&s, CoordinatorEvent::Chunk { seq: 3, end_ms: 2_000 });
    assert_eq!(actions.len(), 2);
    assert!(matches!(actions[0], CoordinatorAction::AppendToLedger { seq: 3 }));
    assert!(matches!(actions[1], CoordinatorAction::AddToTrack { seq: 3, decode: true }));
    let quiet = initial_state(true, false);
    let (_, actions) = step(&quiet, CoordinatorEvent::Chunk { seq: 4, end_ms: 4_000 });
    assert!(matches!(actions[1], CoordinatorAction::AddToTrack { seq: 4, decode: false }));
}

#[test]
fn a_chunk_without_a_transcriber_is_only_kept() {
    let s = initial_state(false, false);
    let (_, actions) = step(&s, CoordinatorEvent::Chunk { seq: 1, end_ms: 1_000 });
    assert_eq!(actions.len(), 1);
    assert!(matches!(actions[0], CoordinatorAction::AppendToLedger { seq: 1 }));
}

#[test]
fn the_disk_is_checked_every_few_chunks() {
    let mut s = initial_state(false, false);
    for i in 0..DISK_CHECK_EVERY_CHUNKS {
        let (next, actions) = step(&s, CoordinatorEvent::Chunk { seq: i as u64, end_ms: 1 });
        let last = i + 1 == DISK_CHECK_EVERY_CHUNKS;
        assert_eq!(actions.len(), if last { 2 } else { 1 });
        if last {
            assert!(matches!(actions[1], CoordinatorAction::CheckDisk));
            assert_eq!(next.chunks_since_disk_check, 0);
        }
        s = next;
    }
}

#[test]
fn a_failed_transcriber_degrades_without_stopping_capture() {
    let s = initial_state(false, true);
    let (next, actions) = step(&s, CoordinatorEvent::TranscriberFailed);
    assert!(!next.live);
    assert!(!next.stopping);
    assert_eq!(actions.len(), 2);
    assert!(matches!(actions[0], CoordinatorAction::ShutdownTranscriber));
    assert!(matches!(
        actions[1],
        CoordinatorAction::ReportDegraded { reason: DegradeReason::TranscriberFailed }
    ));
    let (after, actions) = step(&next, CoordinatorEvent::Chunk { seq: 9, end_ms: 9_000 });
    assert_eq!(actions.len(), 1);
    assert!(matches!(actions[0], CoordinatorAction::AppendToLedger { seq: 9 }));
    assert!(!after.stopping);
    let (_, again) = step(&after, CoordinatorEvent::TranscriberFailed);
    assert!(again.is_empty());
}

#[test]
fn a_failed_ledger_append_only_degrades() {
    let s = initial_state(true, true);
    let (next, actions) = step(&s, CoordinatorEvent::LedgerAppendFailed { seq: 2 });
    assert_eq!(actions.len(), 1);
    assert!(matches!(
        actions[0],
        CoordinatorAction::ReportDegraded { reason: DegradeReason::LedgerAppendFailed }
    ));
    assert!(next.live && !next.stopping);
}

#[test]
fn lost_audio_is_recorded_as_a_fault() {
    let s = initial_state(true, false);
    let (next, actions) = step(&s, CoordinatorEvent::ChunkWriteFailed { end_ms: 3_000 });
    assert_eq!(next.lost_chunks, 1);
    assert_eq!(next.max_end_ms, 3_000);
    assert_eq!(actions.len(), 2);
    assert!(matches!(actions[0], CoordinatorAction::RecordFault { kind: FaultKind::ChunkWriteFailed }));
    assert!(matches!(actions[1], CoordinatorAction::RecordRevisionedGap));
    let plain = initial_state(false, false);
    let (next, actions) = step(&plain, CoordinatorEvent::SourceGap { end_ms: 1_500 });
    assert_eq!(next.lost_chunks, 1);
    assert_eq!(actions.len(), 1);
    assert!(matches!(actions[0], CoordinatorAction::RecordFault { kind: FaultKind::SourceGap }));
    let (next, actions) = step(&plain, CoordinatorEvent::StreamFailed);
    assert_eq!(next.stream_faults, 1);
    assert!(matches!(actions[0], CoordinatorAction::RecordFault { kind: FaultKind::StreamFailed }));
}

#[test]
fn only_an_exhausted_disk_stops_capture() {
    let s = initial_state(false, true);
    let (next, actions) =
        step(&s, CoordinatorEvent::DiskReading { free: Some(MIN_FREE_BYTES_TO_CONTINUE - 1) });
    assert!(next.stopping);
    assert_eq!(actions.len(), 2);
    assert!(matches!(actions[0], CoordinatorAction::RecordFault { kind: FaultKind::DiskExhausted }));
    assert!(matches!(actions[1], CoordinatorAction::StopCapture));

    let (low, actions) = step(&s, CoordinatorEvent::DiskReading { free: Some(LOW_DISK_WARN_BYTES - 1) });
    assert!(!low.stopping && low.low_disk_warned);
    assert_eq!(actions.len(), 1);
    assert!(matches!(actions[0], CoordinatorAction::WarnLowDisk));
    let (_, again) = step(&low, CoordinatorEvent::DiskReading { free: Some(LOW_DISK_WARN_BYTES - 1) });
    assert!(again.is_empty());

    let (fine, actions) = step(&s, CoordinatorEvent::DiskReading { free: Some(LOW_DISK_WARN_BYTES) });
    assert!(actions.is_empty() && !fine.stopping);
    let (unknown, actions) = step(&s, CoordinatorEvent::DiskReading { free: None });
    assert!(actions.is_empty() && !unknown.stopping);
}
