//! After a revisioned meeting ends, the audio not yet transcribed is caught
//! up track by track. These are the decisions of that pass: which step comes
//! next, when it stops, how many stretches are still owed, and when
//! provisional text is discarded (not while a failed batch awaits its retry).
//! The loop that starts the worker, schedules, decodes and commits runs
//! outside the library; it carries out each step's actions in order and
//! reports what happened as the next event.
use vstd::prelude::*;

verus! {

/// Where the catch-up pass stands.
#[derive(Debug, Clone, Copy)]
pub struct PendingState {
    /// Stretches still owed a transcript, as far as the pass knows.
    pub remaining: usize,
    /// Queued slices of the current track not yet handled.
    pub queued_left: usize,
    /// The current track's final window is being decoded.
    pub flushing: bool,
    /// The pass is over.
    pub finished: bool,
}

/// What the loop reports.
#[derive(Debug, Clone, Copy)]
pub enum PendingEvent {
    /// The audio still uncovered was counted: `total` stretches, and whether
    /// any track holds sources not yet committed.
    Found { total: usize, any_pending_sources: bool },
    /// The uncovered audio could not be counted.
    LookupFailed,
    /// The worker could not be used: `running` when it was started, `record`
    /// when the failure is recorded as a fault.
    WorkerFailed { running: bool, record: bool },
    /// A track begins: its queue length, and whether a failed batch awaits
    /// its retry.
    Track { queued: usize, retry_due: bool },
    /// A queued slice was scheduled: whether it followed a gap, and whether
    /// it completed any window.
    Scheduled { gap: bool, has_windows: bool },
    /// A queued slice could not be scheduled.
    ScheduleFailed,
    /// The windows were decoded and their revisions committed.
    Committed,
    /// Decoding failed.
    DecodeFailed,
    /// Committing failed.
    CommitFailed,
    /// The track's scheduler was flushed: whether a final window came out,
    /// and whether the track still holds uncommitted sources.
    Flushed { window: bool, pending_sources: bool },
    /// The track's remaining sources were committed, or not.
    SourcesCommitted { ok: bool },
    /// Every track is done.
    TracksDone,
    /// The uncovered audio counted once more, when it could be.
    FinalCount { still_missing: Option<usize> },
}

/// What the loop is to do, in order.
#[derive(Debug, Clone, Copy)]
pub enum PendingAction {
    /// Start the transcription worker, then go on to the first track as
    /// `NextTrack` does.
    StartWorker,
    /// Record a fault of the pass.
    RecordFault,
    /// Shut the worker down.
    ShutdownWorker,
    /// Discard the track's provisional, uncommitted text.
    DiscardUncommitted,
    /// Reset the track's window scheduler.
    ResetScheduler,
    /// Schedule the next queued slice.
    NextChunk,
    /// Decode the windows just completed and commit them.
    DecodeAndCommit,
    /// Flush the track's scheduler.
    Flush,
    /// Commit the track's remaining sources.
    CommitSources,
    /// Go on to the next track (or report `TracksDone`).
    NextTrack,
    /// Count the uncovered audio once more.
    CountStillMissing,
    /// The pass is over; `remaining` stretches are still owed.
    Finish { remaining: usize },
}

pub open spec fn start_spec() -> PendingState {
    PendingState { remaining: 0, queued_left: 0, flushing: false, finished: false }
}

/// A pass that has not begun.
pub fn pending_start() -> (s: PendingState)
    ensures
        s == start_spec(),
{
    PendingState { remaining: 0, queued_left: 0, flushing: false, finished: false }
}

pub open spec fn at_least_one(n: usize) -> usize {
    if n >= 1 {
        n
    } else {
        1
    }
}

/// After a slice is handled: the next slice, or the flush once the queue is
/// done.
pub open spec fn advance(s: PendingState) -> (PendingState, Seq<PendingAction>) {
    let left = if s.queued_left > 0 {
        (s.queued_left - 1) as usize
    } else {
        0
    };
    (
        PendingState { queued_left: left, ..s },
        if left > 0 {
            seq![PendingAction::NextChunk]
        } else {
            seq![PendingAction::Flush]
        },
    )
}

/// A failure that ends the pass: one more stretch owed, the fault recorded,
/// the worker shut down.
pub open spec fn abort(s: PendingState) -> (PendingState, Seq<PendingAction>) {
    let r = (s.remaining + 1) as usize;
    (
        PendingState { remaining: r, finished: true, ..s },
        seq![PendingAction::RecordFault, PendingAction::ShutdownWorker, PendingAction::Finish { remaining: r }],
    )
}

pub open spec fn less_one(n: usize) -> usize {
    if n > 0 {
        (n - 1) as usize
    } else {
        0
    }
}

/// One step of the catch-up pass.
pub open spec fn pending_step_spec(s: PendingState, e: PendingEvent) -> (PendingState, Seq<PendingAction>) {
    match e {
        PendingEvent::Found { total, any_pending_sources } => if total == 0 && !any_pending_sources {
            (
                PendingState { remaining: 0, finished: true, ..s },
                seq![PendingAction::Finish { remaining: 0 }],
            )
        } else {
            (PendingState { remaining: total, ..s }, seq![PendingAction::StartWorker])
        },
        PendingEvent::LookupFailed => (
            PendingState { remaining: 1, finished: true, ..s },
            seq![PendingAction::RecordFault, PendingAction::Finish { remaining: 1 }],
        ),
        PendingEvent::WorkerFailed { running, record } => {
            let r = at_least_one(s.remaining);
            let a0 = if running {
                seq![PendingAction::ShutdownWorker]
            } else {
                Seq::<PendingAction>::empty()
            };
            let a1 = if record {
                a0.push(PendingAction::RecordFault)
            } else {
                a0
            };
            (
                PendingState { remaining: r, finished: true, ..s },
                a1.push(PendingAction::Finish { remaining: r }),
            )
        },
        PendingEvent::Track { queued, retry_due } => {
            let a0 = if retry_due {
                Seq::<PendingAction>::empty()
            } else {
                seq![PendingAction::DiscardUncommitted]
            };
            (
                PendingState { queued_left: queued, flushing: false, ..s },
                a0.push(PendingAction::ResetScheduler).push(
                    if queued > 0 {
                        PendingAction::NextChunk
                    } else {
                        PendingAction::Flush
                    },
                ),
            )
        },
        PendingEvent::Scheduled { gap, has_windows } => {
            let a0 = if gap {
                seq![PendingAction::DiscardUncommitted]
            } else {
                Seq::<PendingAction>::empty()
            };
            if has_windows {
                (s, a0.push(PendingAction::DecodeAndCommit))
            } else {
                let (n, a) = advance(s);
                (n, a0 + a)
            }
        },
        PendingEvent::ScheduleFailed => advance(
            PendingState { remaining: (s.remaining + 1) as usize, ..s },
        ),
        PendingEvent::Committed => {
            let r = less_one(s.remaining);
            if s.flushing {
                (PendingState { remaining: r, flushing: false, ..s }, seq![PendingAction::CommitSources])
            } else {
                advance(PendingState { remaining: r, ..s })
            }
        },
        PendingEvent::DecodeFailed => abort(s),
        PendingEvent::CommitFailed => abort(s),
        PendingEvent::Flushed { window, pending_sources } => if window {
            (PendingState { flushing: true, ..s }, seq![PendingAction::DecodeAndCommit])
        } else if pending_sources {
            (s, seq![PendingAction::CommitSources])
        } else {
            (s, seq![PendingAction::NextTrack])
        },
        PendingEvent::SourcesCommitted { ok } => (
            PendingState {
                remaining: if ok {
                    less_one(s.remaining)
                } else {
                    (s.remaining + 1) as usize
                },
                ..s
            },
            seq![PendingAction::NextTrack],
        ),
        PendingEvent::TracksDone => (
            s,
            seq![PendingAction::ShutdownWorker, PendingAction::CountStillMissing],
        ),
        PendingEvent::FinalCount { still_missing } => {
            let r = match still_missing {
                Some(n) => n,
                None => at_least_one(s.remaining),
            };
            (PendingState { remaining: r, finished: true, ..s }, seq![PendingAction::Finish { remaining: r }])
        },
    }
}

fn advance_exec(s: PendingState, actions: &mut Vec<PendingAction>) -> (n: PendingState)
    ensures
        n == advance(s).0,
        final(actions)@ == old(actions)@ + advance(s).1,
{
    let left = if s.queued_left > 0 {
        s.queued_left - 1
    } else {
        0
    };
    let ghost before = actions@;
    if left > 0 {
        actions.push(PendingAction::NextChunk);
    } else {
        actions.push(PendingAction::Flush);
    }
    assert(actions@ =~= before + advance(s).1);
    PendingState { queued_left: left, ..s }
}

fn abort_exec(s: PendingState) -> (out: (PendingState, Vec<PendingAction>))
    requires
        s.remaining < usize::MAX,
    ensures
        (out.0, out.1@) == abort(s),
{
    let r = s.remaining + 1;
    let mut actions: Vec<PendingAction> = Vec::new();
    actions.push(PendingAction::RecordFault);
    actions.push(PendingAction::ShutdownWorker);
    actions.push(PendingAction::Finish { remaining: r });
    assert(actions@ =~= abort(s).1);
    (PendingState { remaining: r, finished: true, ..s }, actions)
}

/// Decides one step of the catch-up pass.
pub fn pending_step(state: &PendingState, event: &PendingEvent) -> (out: (PendingState, Vec<PendingAction>))
    requires
        state.remaining < usize::MAX,
    ensures
        (out.0, out.1@) == pending_step_spec(*state, *event),
{
    let s = *state;
    let mut actions: Vec<PendingAction> = Vec::new();
    match *event {
        PendingEvent::Found { total, any_pending_sources } => {
            if total == 0 && !any_pending_sources {
                actions.push(PendingAction::Finish { remaining: 0 });
                assert(actions@ =~= seq![PendingAction::Finish { remaining: 0 }]);
                (PendingState { remaining: 0, finished: true, ..s }, actions)
            } else {
                actions.push(PendingAction::StartWorker);
                assert(actions@ =~= seq![PendingAction::StartWorker]);
                (PendingState { remaining: total, ..s }, actions)
            }
        },
        PendingEvent::LookupFailed => {
            actions.push(PendingAction::RecordFault);
            actions.push(PendingAction::Finish { remaining: 1 });
            assert(actions@ =~= seq![PendingAction::RecordFault, PendingAction::Finish { remaining: 1 }]);
            (PendingState { remaining: 1, finished: true, ..s }, actions)
        },
        PendingEvent::WorkerFailed { running, record } => {
            let r = if s.remaining >= 1 {
                s.remaining
            } else {
                1
            };
            if running {
                actions.push(PendingAction::ShutdownWorker);
            }
            if record {
                actions.push(PendingAction::RecordFault);
            }
            actions.push(PendingAction::Finish { remaining: r });
            proof {
                let a0 = if running {
                    seq![PendingAction::ShutdownWorker]
                } else {
                    Seq::<PendingAction>::empty()
                };
                let a1 = if record {
                    a0.push(PendingAction::RecordFault)
                } else {
                    a0
                };
                assert(actions@ =~= a1.push(PendingAction::Finish { remaining: r }));
            }
            (PendingState { remaining: r, finished: true, ..s }, actions)
        },
        PendingEvent::Track { queued, retry_due } => {
            if !retry_due {
                actions.push(PendingAction::DiscardUncommitted);
            }
            actions.push(PendingAction::ResetScheduler);
            if queued > 0 {
                actions.push(PendingAction::NextChunk);
            } else {
                actions.push(PendingAction::Flush);
            }
            proof {
                let a0 = if retry_due {
                    Seq::<PendingAction>::empty()
                } else {
                    seq![PendingAction::DiscardUncommitted]
                };
                assert(actions@ =~= a0.push(PendingAction::ResetScheduler).push(
                    if queued > 0 {
                        PendingAction::NextChunk
                    } else {
                        PendingAction::Flush
                    },
                ));
            }
            (PendingState { queued_left: queued, flushing: false, ..s }, actions)
        },
        PendingEvent::Scheduled { gap, has_windows } => {
            if gap {
                actions.push(PendingAction::DiscardUncommitted);
            }
            let ghost a0 = actions@;
            assert(a0 =~= if gap {
                seq![PendingAction::DiscardUncommitted]
            } else {
                Seq::<PendingAction>::empty()
            });
            if has_windows {
                actions.push(PendingAction::DecodeAndCommit);
                (s, actions)
            } else {
                let n = advance_exec(s, &mut actions);
                (n, actions)
            }
        },
        PendingEvent::ScheduleFailed => {
            let bumped = PendingState { remaining: s.remaining + 1, ..s };
            let n = advance_exec(bumped, &mut actions);
            assert(actions@ =~= advance(bumped).1);
            (n, actions)
        },
        PendingEvent::Committed => {
            let r = if s.remaining > 0 {
                s.remaining - 1
            } else {
                0
            };
            if s.flushing {
                actions.push(PendingAction::CommitSources);
                assert(actions@ =~= seq![PendingAction::CommitSources]);
                (PendingState { remaining: r, flushing: false, ..s }, actions)
            } else {
                let lowered = PendingState { remaining: r, ..s };
                let n = advance_exec(lowered, &mut actions);
                assert(actions@ =~= advance(lowered).1);
                (n, actions)
            }
        },
        PendingEvent::DecodeFailed => abort_exec(s),
        PendingEvent::CommitFailed => abort_exec(s),
        PendingEvent::Flushed { window, pending_sources } => {
            if window {
                actions.push(PendingAction::DecodeAndCommit);
                assert(actions@ =~= seq![PendingAction::DecodeAndCommit]);
                (PendingState { flushing: true, ..s }, actions)
            } else if pending_sources {
                actions.push(PendingAction::CommitSources);
                assert(actions@ =~= seq![PendingAction::CommitSources]);
                (s, actions)
            } else {
                actions.push(PendingAction::NextTrack);
                assert(actions@ =~= seq![PendingAction::NextTrack]);
                (s, actions)
            }
        },
        PendingEvent::SourcesCommitted { ok } => {
            let r = if ok {
                if s.remaining > 0 {
                    s.remaining - 1
                } else {
                    0
                }
            } else {
                s.remaining + 1
            };
            actions.push(PendingAction::NextTrack);
            assert(actions@ =~= seq![PendingAction::NextTrack]);
            (PendingState { remaining: r, ..s }, actions)
        },
        PendingEvent::TracksDone => {
            actions.push(PendingAction::ShutdownWorker);
            actions.push(PendingAction::CountStillMissing);
            assert(actions@ =~= seq![PendingAction::ShutdownWorker, PendingAction::CountStillMissing]);
            (s, actions)
        },
        PendingEvent::FinalCount { still_missing } => {
            let r = match still_missing {
                Some(n) => n,
                None => if s.remaining >= 1 {
                    s.remaining
                } else {
                    1
                },
            };
            actions.push(PendingAction::Finish { remaining: r });
            assert(actions@ =~= seq![PendingAction::Finish { remaining: r }]);
            (PendingState { remaining: r, finished: true, ..s }, actions)
        },
    }
}

/// A failed pass never reports that nothing is owed: whenever the lookup,
/// the worker, a decode or a commit fails, the pass finishes owing at least
/// one stretch.
pub proof fn law_a_failed_pass_owes_something(s: PendingState, e: PendingEvent)
    requires
        s.remaining < usize::MAX,
        e is LookupFailed || e is WorkerFailed || e is DecodeFailed || e is CommitFailed,
    ensures
        ({
            let (n, actions) = pending_step_spec(s, e);
            &&& n.finished
            &&& n.remaining >= 1
            &&& actions.last() == PendingAction::Finish { remaining: n.remaining }
        }),
{
}

/// Provisional text survives while a failed batch awaits its retry: a track
/// that begins with a retry due discards nothing.
pub proof fn law_a_due_retry_keeps_provisional_text(s: PendingState, queued: usize)
    ensures
        ({
            let actions = pending_step_spec(s, PendingEvent::Track { queued, retry_due: true }).1;
            forall|k: int| 0 <= k < actions.len() ==> actions[k] != PendingAction::DiscardUncommitted
        }),
{
}

/// A track's queue is worked through slice by slice and then flushed: each
/// slice handled without windows moves to the next while any are left, and
/// to the flush after the last.
pub proof fn law_the_queue_ends_in_a_flush(s: PendingState)
    requires
        s.queued_left <= 1,
    ensures
        advance(s).1 == seq![PendingAction::Flush],
{
}

} // verus!
