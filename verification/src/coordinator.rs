//! The live-meeting coordinator's decisions. Every slice the capture threads
//! cut is appended to the ledger before anything transcribes it (persist
//! before enrich), and a transcriber that fails only degrades the session:
//! capture goes on (live intelligence is optional). The loop that receives
//! events and carries out the actions runs outside the library; it performs
//! the actions of one step in order, and where an action asks for a reading
//! (`CheckDisk`) it feeds the answer back as the next event before going on.
use vstd::prelude::*;
use crate::live_meeting::{
    DISK_CHECK_EVERY_CHUNKS, LOW_DISK_WARN_BYTES, MIN_FREE_BYTES_TO_CONTINUE,
};

verus! {

/// What the coordinator knows between events.
#[derive(Debug, Clone, Copy)]
pub struct CoordinatorState {
    /// The session runs the revisioned transcript profile.
    pub revisioned: bool,
    /// A live transcriber is running (with its model run recorded, when
    /// revisioned).
    pub live: bool,
    /// Stretches of audio lost so far.
    pub lost_chunks: usize,
    /// Faults of the audio streams so far.
    pub stream_faults: usize,
    /// Slices appended since free space was last read.
    pub chunks_since_disk_check: usize,
    /// The low-space warning was given.
    pub low_disk_warned: bool,
    /// The furthest end of audio seen, written or lost.
    pub max_end_ms: i64,
    /// Capture was told to stop.
    pub stopping: bool,
}

/// What reaches the coordinator.
#[derive(Debug, Clone, Copy)]
pub enum CoordinatorEvent {
    /// A slice was written to disk.
    Chunk { seq: u64, end_ms: i64 },
    /// A slice could not be written; its audio is lost.
    ChunkWriteFailed { end_ms: i64 },
    /// The source skipped audio.
    SourceGap { end_ms: i64 },
    /// An audio stream reported an error.
    StreamFailed,
    /// Appending slice `seq` to the ledger failed; the file stays on disk.
    LedgerAppendFailed { seq: u64 },
    /// The free space read after `CheckDisk`, when it could be read.
    DiskReading { free: Option<u64> },
    /// The live transcriber failed or stopped answering.
    TranscriberFailed,
}

/// What went wrong, for the fault record.
#[derive(Debug, Clone, Copy)]
pub enum FaultKind {
    ChunkWriteFailed,
    SourceGap,
    StreamFailed,
    DiskExhausted,
}

/// Why the session is degraded.
#[derive(Debug, Clone, Copy)]
pub enum DegradeReason {
    LedgerAppendFailed,
    TranscriberFailed,
}

/// What the coordinator asks to be done, in order.
#[derive(Debug, Clone, Copy)]
pub enum CoordinatorAction {
    /// Append slice `seq` to the ledger.
    AppendToLedger { seq: u64 },
    /// Record a capture fault.
    RecordFault { kind: FaultKind },
    /// Close the revision tracks' windows at a gap in the audio.
    RecordRevisionedGap,
    /// Read the free space and report it.
    CheckDisk,
    /// Warn, once, that space is low.
    WarnLowDisk,
    /// Stop capturing; every slice already cut stays.
    StopCapture,
    /// Transcribe slice `seq` live.
    Transcribe { seq: u64 },
    /// Add slice `seq` to its revision track, decoding its windows when a
    /// live transcriber runs.
    AddToTrack { seq: u64, decode: bool },
    /// Shut the live transcriber down.
    ShutdownTranscriber,
    /// Tell the interface the session is degraded.
    ReportDegraded { reason: DegradeReason },
}

/// The state at the start of a session.
pub open spec fn initial_state_spec(revisioned: bool, live: bool) -> CoordinatorState {
    CoordinatorState {
        revisioned,
        live,
        lost_chunks: 0,
        stream_faults: 0,
        chunks_since_disk_check: 0,
        low_disk_warned: false,
        max_end_ms: 0,
        stopping: false,
    }
}

/// A session starting with or without a live transcriber.
pub fn initial_state(revisioned: bool, live: bool) -> (s: CoordinatorState)
    ensures
        s == initial_state_spec(revisioned, live),
{
    CoordinatorState {
        revisioned,
        live,
        lost_chunks: 0,
        stream_faults: 0,
        chunks_since_disk_check: 0,
        low_disk_warned: false,
        max_end_ms: 0,
        stopping: false,
    }
}

/// The counters have room for one more event.
pub open spec fn counters_fit(s: CoordinatorState) -> bool {
    s.lost_chunks < usize::MAX && s.stream_faults < usize::MAX && s.chunks_since_disk_check
        < usize::MAX
}

pub open spec fn max_i64(a: i64, b: i64) -> i64 {
    if a >= b {
        a
    } else {
        b
    }
}

/// One step: the state after `e` and the actions it asks for.
pub open spec fn coordinator_step_spec(s: CoordinatorState, e: CoordinatorEvent) -> (
    CoordinatorState,
    Seq<CoordinatorAction>,
) {
    match e {
        CoordinatorEvent::Chunk { seq, end_ms } => {
            let counted = (s.chunks_since_disk_check + 1) as usize;
            let check = counted >= DISK_CHECK_EVERY_CHUNKS;
            let after_ledger = seq![CoordinatorAction::AppendToLedger { seq }];
            let after_check = if check {
                after_ledger.push(CoordinatorAction::CheckDisk)
            } else {
                after_ledger
            };
            let actions = if s.revisioned {
                after_check.push(CoordinatorAction::AddToTrack { seq, decode: s.live })
            } else if s.live {
                after_check.push(CoordinatorAction::Transcribe { seq })
            } else {
                after_check
            };
            (
                CoordinatorState {
                    chunks_since_disk_check: if check {
                        0
                    } else {
                        counted
                    },
                    max_end_ms: max_i64(s.max_end_ms, end_ms),
                    ..s
                },
                actions,
            )
        },
        CoordinatorEvent::ChunkWriteFailed { end_ms } => {
            let fault = seq![CoordinatorAction::RecordFault { kind: FaultKind::ChunkWriteFailed }];
            (
                CoordinatorState {
                    lost_chunks: (s.lost_chunks + 1) as usize,
                    max_end_ms: max_i64(s.max_end_ms, end_ms),
                    ..s
                },
                if s.revisioned {
                    fault.push(CoordinatorAction::RecordRevisionedGap)
                } else {
                    fault
                },
            )
        },
        CoordinatorEvent::SourceGap { end_ms } => {
            let fault = seq![CoordinatorAction::RecordFault { kind: FaultKind::SourceGap }];
            (
                CoordinatorState {
                    lost_chunks: (s.lost_chunks + 1) as usize,
                    max_end_ms: max_i64(s.max_end_ms, end_ms),
                    ..s
                },
                if s.revisioned {
                    fault.push(CoordinatorAction::RecordRevisionedGap)
                } else {
                    fault
                },
            )
        },
        CoordinatorEvent::StreamFailed => (
            CoordinatorState { stream_faults: (s.stream_faults + 1) as usize, ..s },
            seq![CoordinatorAction::RecordFault { kind: FaultKind::StreamFailed }],
        ),
        CoordinatorEvent::LedgerAppendFailed { seq } => (
            s,
            seq![CoordinatorAction::ReportDegraded { reason: DegradeReason::LedgerAppendFailed }],
        ),
        CoordinatorEvent::DiskReading { free } => match free {
            None => (s, seq![]),
            Some(f) => if f < MIN_FREE_BYTES_TO_CONTINUE {
                (
                    CoordinatorState { stopping: true, ..s },
                    seq![
                        CoordinatorAction::RecordFault { kind: FaultKind::DiskExhausted },
                        CoordinatorAction::StopCapture,
                    ],
                )
            } else if f < LOW_DISK_WARN_BYTES && !s.low_disk_warned {
                (CoordinatorState { low_disk_warned: true, ..s }, seq![CoordinatorAction::WarnLowDisk])
            } else {
                (s, seq![])
            },
        },
        CoordinatorEvent::TranscriberFailed => if s.live {
            (
                CoordinatorState { live: false, ..s },
                seq![
                    CoordinatorAction::ShutdownTranscriber,
                    CoordinatorAction::ReportDegraded { reason: DegradeReason::TranscriberFailed },
                ],
            )
        } else {
            (s, seq![])
        },
    }
}

fn max_of(a: i64, b: i64) -> (r: i64)
    ensures
        r == max_i64(a, b),
{
    if a >= b {
        a
    } else {
        b
    }
}

/// Decides what one event does to the session and what is to be done.
pub fn coordinator_step(state: &CoordinatorState, event: &CoordinatorEvent) -> (out: (
    CoordinatorState,
    Vec<CoordinatorAction>,
))
    requires
        counters_fit(*state),
    ensures
        (out.0, out.1@) == coordinator_step_spec(*state, *event),
{
    let s = *state;
    match *event {
        CoordinatorEvent::Chunk { seq, end_ms } => {
            let counted = s.chunks_since_disk_check + 1;
            let check = counted >= DISK_CHECK_EVERY_CHUNKS;
            let mut actions: Vec<CoordinatorAction> = Vec::new();
            actions.push(CoordinatorAction::AppendToLedger { seq });
            if check {
                actions.push(CoordinatorAction::CheckDisk);
            }
            if s.revisioned {
                actions.push(CoordinatorAction::AddToTrack { seq, decode: s.live });
            } else if s.live {
                actions.push(CoordinatorAction::Transcribe { seq });
            }
            let next = CoordinatorState {
                chunks_since_disk_check: if check {
                    0
                } else {
                    counted
                },
                max_end_ms: max_of(s.max_end_ms, end_ms),
                ..s
            };
            proof {
                let after_ledger = seq![CoordinatorAction::AppendToLedger { seq }];
                let after_check = if check {
                    after_ledger.push(CoordinatorAction::CheckDisk)
                } else {
                    after_ledger
                };
                if s.revisioned {
                    assert(actions@ =~= after_check.push(
                        CoordinatorAction::AddToTrack { seq, decode: s.live },
                    ));
                } else if s.live {
                    assert(actions@ =~= after_check.push(CoordinatorAction::Transcribe { seq }));
                } else {
                    assert(actions@ =~= after_check);
                }
            }
            (next, actions)
        },
        CoordinatorEvent::ChunkWriteFailed { end_ms } => {
            let mut actions: Vec<CoordinatorAction> = Vec::new();
            actions.push(CoordinatorAction::RecordFault { kind: FaultKind::ChunkWriteFailed });
            if s.revisioned {
                actions.push(CoordinatorAction::RecordRevisionedGap);
            }
            proof {
                let fault = seq![CoordinatorAction::RecordFault { kind: FaultKind::ChunkWriteFailed }];
                if s.revisioned {
                    assert(actions@ =~= fault.push(CoordinatorAction::RecordRevisionedGap));
                } else {
                    assert(actions@ =~= fault);
                }
            }
            (
                CoordinatorState {
                    lost_chunks: s.lost_chunks + 1,
                    max_end_ms: max_of(s.max_end_ms, end_ms),
                    ..s
                },
                actions,
            )
        },
        CoordinatorEvent::SourceGap { end_ms } => {
            let mut actions: Vec<CoordinatorAction> = Vec::new();
            actions.push(CoordinatorAction::RecordFault { kind: FaultKind::SourceGap });
            if s.revisioned {
                actions.push(CoordinatorAction::RecordRevisionedGap);
            }
            proof {
                let fault = seq![CoordinatorAction::RecordFault { kind: FaultKind::SourceGap }];
                if s.revisioned {
                    assert(actions@ =~= fault.push(CoordinatorAction::RecordRevisionedGap));
                } else {
                    assert(actions@ =~= fault);
                }
            }
            (
                CoordinatorState {
                    lost_chunks: s.lost_chunks + 1,
                    max_end_ms: max_of(s.max_end_ms, end_ms),
                    ..s
                },
                actions,
            )
        },
        CoordinatorEvent::StreamFailed => {
            let mut actions: Vec<CoordinatorAction> = Vec::new();
            actions.push(CoordinatorAction::RecordFault { kind: FaultKind::StreamFailed });
            assert(actions@ =~= seq![CoordinatorAction::RecordFault { kind: FaultKind::StreamFailed }]);
            (CoordinatorState { stream_faults: s.stream_faults + 1, ..s }, actions)
        },
        CoordinatorEvent::LedgerAppendFailed { seq } => {
            let mut actions: Vec<CoordinatorAction> = Vec::new();
            actions.push(
                CoordinatorAction::ReportDegraded { reason: DegradeReason::LedgerAppendFailed },
            );
            assert(actions@ =~= seq![
                CoordinatorAction::ReportDegraded { reason: DegradeReason::LedgerAppendFailed },
            ]);
            (s, actions)
        },
        CoordinatorEvent::DiskReading { free } => {
            let mut actions: Vec<CoordinatorAction> = Vec::new();
            match free {
                None => {
                    assert(actions@ =~= seq![]);
                    (s, actions)
                },
                Some(f) => {
                    if f < MIN_FREE_BYTES_TO_CONTINUE {
                        actions.push(CoordinatorAction::RecordFault { kind: FaultKind::DiskExhausted });
                        actions.push(CoordinatorAction::StopCapture);
                        assert(actions@ =~= seq![
                            CoordinatorAction::RecordFault { kind: FaultKind::DiskExhausted },
                            CoordinatorAction::StopCapture,
                        ]);
                        (CoordinatorState { stopping: true, ..s }, actions)
                    } else if f < LOW_DISK_WARN_BYTES && !s.low_disk_warned {
                        actions.push(CoordinatorAction::WarnLowDisk);
                        assert(actions@ =~= seq![CoordinatorAction::WarnLowDisk]);
                        (CoordinatorState { low_disk_warned: true, ..s }, actions)
                    } else {
                        assert(actions@ =~= seq![]);
                        (s, actions)
                    }
                },
            }
        },
        CoordinatorEvent::TranscriberFailed => {
            let mut actions: Vec<CoordinatorAction> = Vec::new();
            if s.live {
                actions.push(CoordinatorAction::ShutdownTranscriber);
                actions.push(
                    CoordinatorAction::ReportDegraded { reason: DegradeReason::TranscriberFailed },
                );
                assert(actions@ =~= seq![
                    CoordinatorAction::ShutdownTranscriber,
                    CoordinatorAction::ReportDegraded { reason: DegradeReason::TranscriberFailed },
                ]);
                (CoordinatorState { live: false, ..s }, actions)
            } else {
                assert(actions@ =~= seq![]);
                (s, actions)
            }
        },
    }
}

/// The action transcribes slice `seq`, live or through its revision track.
pub open spec fn transcribes(a: CoordinatorAction, seq: u64) -> bool {
    match a {
        CoordinatorAction::Transcribe { seq: s } => s == seq,
        CoordinatorAction::AddToTrack { seq: s, decode } => s == seq,
        _ => false,
    }
}

/// Persist before enrich: a step only ever hands a slice to transcription
/// when the event is that slice's arrival, and then its ledger append is the
/// step's first action, ahead of every transcription action.
pub proof fn law_ledger_comes_before_transcription(s: CoordinatorState, e: CoordinatorEvent, seq: u64)
    ensures
        ({
            let actions = coordinator_step_spec(s, e).1;
            (exists|k: int| 0 <= k < actions.len() && #[trigger] transcribes(actions[k], seq)) ==> {
                &&& e matches CoordinatorEvent::Chunk { seq: cs, .. } && cs == seq
                &&& actions[0] == CoordinatorAction::AppendToLedger { seq }
                &&& forall|k: int|
                    0 <= k < actions.len() && #[trigger] transcribes(actions[k], seq) ==> k > 0
            }
        }),
{
}

/// Live intelligence is optional: a failed transcriber never stops capture.
/// The session only stops listening live; nothing counted changes and
/// capture is not told to stop.
pub proof fn law_a_failed_transcriber_only_degrades(s: CoordinatorState)
    ensures
        ({
            let (next, actions) = coordinator_step_spec(s, CoordinatorEvent::TranscriberFailed);
            &&& !next.live
            &&& next.stopping == s.stopping
            &&& next.lost_chunks == s.lost_chunks
            &&& next.stream_faults == s.stream_faults
            &&& forall|k: int| 0 <= k < actions.len() ==> actions[k] != CoordinatorAction::StopCapture
        }),
{
}

/// Only running out of disk stops capture: a step asks capture to stop
/// only on a free-space reading under `MIN_FREE_BYTES_TO_CONTINUE`.
pub proof fn law_only_exhausted_disk_stops_capture(s: CoordinatorState, e: CoordinatorEvent)
    ensures
        ({
            let actions = coordinator_step_spec(s, e).1;
            (exists|k: int| 0 <= k < actions.len() && actions[k] == CoordinatorAction::StopCapture)
                ==> (e matches CoordinatorEvent::DiskReading { free: Some(f) } && f
                < MIN_FREE_BYTES_TO_CONTINUE)
        }),
{
    let actions = coordinator_step_spec(s, e).1;
    if exists|k: int| 0 <= k < actions.len() && actions[k] == CoordinatorAction::StopCapture {
        let k = choose|k: int| 0 <= k < actions.len() && actions[k] == CoordinatorAction::StopCapture;
        match e {
            CoordinatorEvent::Chunk { seq, end_ms } => {
                assert(actions[k] != CoordinatorAction::StopCapture);
            },
            _ => {},
        }
    }
}

} // verus!
