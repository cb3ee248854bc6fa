use fung::catch_up::{pending_start, pending_step, PendingAction, PendingEvent, PendingState};

fn step(s: &PendingState, e: PendingEvent) -> (PendingState, Vec<PendingAction>) {
    pending_step(s, &e)
}

#[test]
fn nothing_pending_finishes_at_once() {
    let s = pending_start();
    let (next, actions) = step(&s, PendingEvent::Found { total: 0, any_pending_sources: false });
    assert!(next.finished);
    assert_eq!(actions.len(), 1);
    assert!(matches!(actions[0], PendingAction::Finish { remaining: 0 }));
}

#[test]
fn pending_chunks_start_the_worker() {
    let s = pending_start();
    let (next, actions) = step(&s, PendingEvent::Found { total: 3, any_pending_sources: false });
    assert_eq!(next.remaining, 3);
    assert!(!next.finished);
    assert!(matches!(actions[..], [PendingAction::StartWorker]));
    let (next, actions) = step(&s, PendingEvent::Found { total: 0, any_pending_sources: true });
    assert!(!next.finished);
    assert!(matches!(actions[..], [PendingAction::StartWorker]));
}

#[test]
fn a_failed_lookup_owes_one_more_pass() {
    let (next, actions) = step(&pending_start(), PendingEvent::LookupFailed);
    assert!(next.finished);
    assert_eq!(next.remaining, 1);
    assert!(matches!(actions[..], [PendingAction::RecordFault, PendingAction::Finish { remaining: 1 }]));
}

#[test]
fn a_failed_worker_owes_at_least_one() {
    let (found, _) = step(&pending_start(), PendingEvent::Found { total: 0, any_pending_sources: true });
    let (next, actions) = step(&found, PendingEvent::WorkerFailed { running: true, record: true });
    assert_eq!(next.remaining, 1);
    assert!(matches!(
        actions[..],
        [PendingAction::ShutdownWorker, PendingAction::RecordFault, PendingAction::Finish { remaining: 1 }]
    ));
    let (found, _) = step(&pending_start(), PendingEvent::Found { total: 4, any_pending_sources: false });
    let (next, actions) = step(&found, PendingEvent::WorkerFailed { running: false, record: false });
    assert_eq!(next.remaining, 4);
    assert!(matches!(actions[..], [PendingAction::Finish { remaining: 4 }]));
}

#[test]
fn a_track_without_a_due_retry_drops_provisional_text() {
    let (found, _) = step(&pending_start(), PendingEvent::Found { total: 2, any_pending_sources: false });
    let (next, actions) = step(&found, PendingEvent::Track { queued: 2, retry_due: false });
    assert_eq!(next.queued_left, 2);
    assert!(matches!(
        actions[..],
        [PendingAction::DiscardUncommitted, PendingAction::ResetScheduler, PendingAction::NextChunk]
    ));
    let (_, actions) = step(&found, PendingEvent::Track { queued: 0, retry_due: true });
    assert!(matches!(actions[..], [PendingAction::ResetScheduler, PendingAction::Flush]));
}

#[test]
fn a_pass_over_one_track_walks_its_chunks_then_flushes() {
    let (s, _) = step(&pending_start(), PendingEvent::Found { total: 2, any_pending_sources: false });
    let (s, _) = step(&s, PendingEvent::Track { queued: 2, retry_due: false });
    let (s, actions) = step(&s, PendingEvent::Scheduled { gap: false, has_windows: true });
    assert!(matches!(actions[..], [PendingAction::DecodeAndCommit]));
    let (s, actions) = step(&s, PendingEvent::Committed);
    assert_eq!(s.remaining, 1);
    assert_eq!(s.queued_left, 1);
    assert!(matches!(actions[..], [PendingAction::NextChunk]));
    let (s, actions) = step(&s, PendingEvent::Scheduled { gap: true, has_windows: false });
    assert_eq!(s.queued_left, 0);
    assert!(matches!(actions[..], [PendingAction::DiscardUncommitted, PendingAction::Flush]));
    let (s, actions) = step(&s, PendingEvent::Flushed { window: true, pending_sources: true });
    assert!(s.flushing);
    assert!(matches!(actions[..], [PendingAction::DecodeAndCommit]));
    let (s, actions) = step(&s, PendingEvent::Committed);
    assert!(!s.flushing);
    assert_eq!(s.remaining, 0);
    assert!(matches!(actions[..], [PendingAction::CommitSources]));
    let (s, actions) = step(&s, PendingEvent::SourcesCommitted { ok: true });
    assert!(matches!(actions[..], [PendingAction::NextTrack]));
    let (s, actions) = step(&s, PendingEvent::TracksDone);
    assert!(matches!(actions[..], [PendingAction::ShutdownWorker, PendingAction::CountStillMissing]));
    let (s, actions) = step(&s, PendingEvent::FinalCount { still_missing: Some(0) });
    assert!(s.finished);
    assert!(matches!(actions[..], [PendingAction::Finish { remaining: 0 }]));
}

#[test]
fn a_failed_decode_ends_the_pass_owing_more() {
    let (s, _) = step(&pending_start(), PendingEvent::Found { total: 2, any_pending_sources: false });
    let (next, actions) = step(&s, PendingEvent::DecodeFailed);
    assert!(next.finished);
    assert_eq!(next.remaining, 3);
    assert!(matches!(
        actions[..],
        [PendingAction::RecordFault, PendingAction::ShutdownWorker, PendingAction::Finish { remaining: 3 }]
    ));
    let (next, _) = step(&s, PendingEvent::CommitFailed);
    assert_eq!(next.remaining, 3);
}

#[test]
fn a_schedule_failure_counts_and_moves_on() {
    let (s, _) = step(&pending_start(), PendingEvent::Found { total: 1, any_pending_sources: false });
    let (s, _) = step(&s, PendingEvent::Track { queued: 1, retry_due: false });
    let (next, actions) = step(&s, PendingEvent::ScheduleFailed);
    assert_eq!(next.remaining, 2);
    assert!(matches!(actions[..], [PendingAction::Flush]));
}

#[test]
fn an_unknown_final_count_owes_at_least_one() {
    let s = pending_start();
    let (next, actions) = step(&s, PendingEvent::FinalCount { still_missing: None });
    assert_eq!(next.remaining, 1);
    assert!(matches!(actions[..], [PendingAction::Finish { remaining: 1 }]));
    let (next, actions) = step(&s, PendingEvent::Flushed { window: false, pending_sources: false });
    assert!(!next.finished);
    assert!(matches!(actions[..], [PendingAction::NextTrack]));
    let (next, _) = step(&s, PendingEvent::SourcesCommitted { ok: false });
    assert_eq!(next.remaining, 1);
}
