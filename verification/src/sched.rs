//! Command scheduling: the lifecycle of one submitted command.
//!
//! A command moves through four phases — waiting for its latches,
//! waiting for a snapshot, executing, finished — driven by events
//! from the latch manager, the snapshot provider, the executor and
//! the caller's sink.  The transition function here decides each
//! step; the surrounding runtime performs the returned action
//! (request latches, request a snapshot, run the executor, release
//! the latches) and hands the resulting event back.  Every command
//! reaches exactly one terminal delivery; dropping the result sink
//! never aborts a dispatched execution and never keeps latches held —
//! it only discards the result and marks the command canceled for
//! diagnostics.

use vstd::prelude::*;

verus! {

/// What the snapshot provider reports for one request: a consistent
/// read handle bound to the replica term and region epoch it was
/// obtained under, or one of three staleness signals.
#[derive(Clone, Copy, PartialEq, Eq, Structural, Debug)]
pub enum SnapshotReply {
    Ready { term: u64, epoch: u64 },
    EpochStale { current_epoch: u64 },
    NotLeader,
    RegionNotFound,
}

/// The retryable errors of the snapshot phase.  The caller refreshes
/// its routing information and resubmits; the scheduler itself never
/// retries.
#[derive(Clone, Copy, PartialEq, Eq, Structural, Debug)]
pub enum RetryError {
    EpochStale { current_epoch: u64 },
    NotLeader,
    RegionNotFound,
}

/// How the snapshot phase treats a provider reply: only a `Ready`
/// handle obtained under the command's own routing epoch proceeds to
/// execution.  A snapshot from any other epoch is unreliable — the
/// region moved underneath the request — and every other reply is a
/// staleness signal, so all of these end the command with a
/// retryable error.
pub open spec fn spec_snapshot_phase(cmd_epoch: u64, reply: SnapshotReply) -> Result<
    (),
    RetryError,
> {
    match reply {
        SnapshotReply::Ready { term: _, epoch } => if epoch == cmd_epoch {
            Ok(())
        } else {
            Err(RetryError::EpochStale { current_epoch: epoch })
        },
        SnapshotReply::EpochStale { current_epoch } => Err(
            RetryError::EpochStale { current_epoch },
        ),
        SnapshotReply::NotLeader => Err(RetryError::NotLeader),
        SnapshotReply::RegionNotFound => Err(RetryError::RegionNotFound),
    }
}

/// Decides the snapshot phase for one reply.  A reply under the
/// command's epoch proceeds; a reply under any other epoch — however
/// many times the epoch moved while the request was stalled — and
/// every explicit staleness signal is a retryable error, fixed
/// one-to-one from the reply.
pub fn snapshot_phase(cmd_epoch: u64, reply: SnapshotReply) -> (r: Result<(), RetryError>)
    ensures
        r == spec_snapshot_phase(cmd_epoch, reply),
        r is Ok <==> (reply matches SnapshotReply::Ready { term: _, epoch } && epoch == cmd_epoch),
{
    match reply {
        SnapshotReply::Ready { term: _, epoch } => {
            if epoch == cmd_epoch {
                Ok(())
            } else {
                Err(RetryError::EpochStale { current_epoch: epoch })
            }
        }
        SnapshotReply::EpochStale { current_epoch } => {
            Err(RetryError::EpochStale { current_epoch })
        }
        SnapshotReply::NotLeader => Err(RetryError::NotLeader),
        SnapshotReply::RegionNotFound => Err(RetryError::RegionNotFound),
    }
}

/// One command's completion sink: fires exactly once, with the cancel
/// mark set when the caller's end was already gone at delivery time.
#[derive(Clone, Copy, PartialEq, Eq, Structural, Debug)]
pub struct CompletionSink {
    pub fired: bool,
    pub canceled: bool,
}

/// Fires the sink, exactly once per command.  With the caller's end
/// still attached the outcome is delivered; with it gone the outcome
/// is discarded harmlessly and the command is marked canceled for
/// diagnostics only.
pub fn deliver(s: &mut CompletionSink, sink_open: bool) -> (delivered: bool)
    requires
        !old(s).fired,
    ensures
        final(s).fired,
        delivered == sink_open,
        final(s).canceled == !sink_open,
{
    s.fired = true;
    s.canceled = !sink_open;
    sink_open
}

/// The phases of one command's life.
#[derive(Clone, Copy, PartialEq, Eq, Structural, Debug)]
pub enum Phase {
    /// Latches requested, not all granted yet.
    AwaitingLatches,
    /// All latches held; a snapshot was requested.
    AwaitingSnapshot,
    /// Snapshot validated; the executor is running.  Still holding
    /// every latch.
    Executing,
    /// The terminal outcome was delivered and the latches released.
    Finished,
}

/// The class of a command's terminal outcome.
#[derive(Clone, Copy, PartialEq, Eq, Structural, Debug)]
pub enum CmdOutcome {
    /// The executor finished and its writes were applied.
    Success,
    /// The executor found a deterministic per-key conflict; nothing
    /// was written.
    Conflict,
    /// The snapshot phase failed; the caller must refresh its routing
    /// and resubmit.
    Retry(RetryError),
}

/// The scheduling state of one command.
#[derive(Clone, Copy, PartialEq, Eq, Structural, Debug)]
pub struct CmdState {
    pub phase: Phase,
    /// The caller's end of the sink is still attached.
    pub sink_open: bool,
    pub sink: CompletionSink,
    /// The outcome delivered through the sink; discarded (left empty)
    /// when the sink was closed at delivery time.
    pub outcome: Option<CmdOutcome>,
}

/// Events handed back by the runtime.
#[derive(Clone, Copy, PartialEq, Eq, Structural, Debug)]
pub enum CmdEvent {
    /// The latch manager granted every latch of the key set.
    LatchesGranted,
    /// The snapshot provider answered.
    SnapshotArrived(SnapshotReply),
    /// The executor finished, with or without a per-key conflict.
    ExecutorDone { conflict: bool },
    /// The caller dropped its end of the result sink.
    SinkClosed,
}

/// What the runtime must do after a step.
#[derive(Clone, Copy, PartialEq, Eq, Structural, Debug)]
pub enum CmdAction {
    /// Request the command's latches from the latch manager.
    RequestLatches,
    /// Request a snapshot for the command's routing context.
    RequestSnapshot,
    /// Run the MVCC executor under the held latches.
    Execute,
    /// Release every latch of the command; waiters may now be
    /// promoted.
    Release,
    /// Nothing to do until the next event.
    Wait,
}

/// Well-formedness of a command state: the sink has fired exactly
/// when the command is finished, the cancel mark and the recorded
/// outcome exist only past delivery, and an outcome is recorded
/// exactly when delivery found the sink attached.
pub open spec fn cmd_wf(st: CmdState) -> bool {
    &&& st.sink.fired == (st.phase == Phase::Finished)
    &&& st.sink.canceled ==> st.sink.fired
    &&& st.sink.canceled == (st.sink.fired && !st.sink_open)
    &&& (st.outcome is Some) == (st.phase == Phase::Finished && st.sink_open)
}

/// The terminal transition: deliver through the sink and release the
/// latches, whatever the sink's state.
pub open spec fn spec_finish(st: CmdState, o: CmdOutcome) -> (CmdState, CmdAction) {
    (
        CmdState {
            phase: Phase::Finished,
            sink_open: st.sink_open,
            sink: CompletionSink { fired: true, canceled: !st.sink_open },
            outcome: if st.sink_open {
                Some(o)
            } else {
                None
            },
        },
        CmdAction::Release,
    )
}

/// The scheduling step: from one command state and one event to the
/// next state and the runtime's action.
///
/// The submission flow: latches granted, request the snapshot; a
/// valid snapshot, run the executor; executor done, deliver and
/// release.  A stale snapshot delivers the retryable error and
/// releases at once.  Closing the sink changes no phase — an
/// in-flight execution is never aborted — and an event that does not
/// belong to the current phase (a late reply to a finished command)
/// is ignored.
pub open spec fn spec_step(st: CmdState, ev: CmdEvent, cmd_epoch: u64) -> (CmdState, CmdAction) {
    match ev {
        CmdEvent::SinkClosed => if st.phase == Phase::Finished {
            (st, CmdAction::Wait)
        } else {
            (
                CmdState { phase: st.phase, sink_open: false, sink: st.sink, outcome: st.outcome },
                CmdAction::Wait,
            )
        },
        CmdEvent::LatchesGranted => if st.phase == Phase::AwaitingLatches {
            (
                CmdState {
                    phase: Phase::AwaitingSnapshot,
                    sink_open: st.sink_open,
                    sink: st.sink,
                    outcome: st.outcome,
                },
                CmdAction::RequestSnapshot,
            )
        } else {
            (st, CmdAction::Wait)
        },
        CmdEvent::SnapshotArrived(reply) => if st.phase == Phase::AwaitingSnapshot {
            match spec_snapshot_phase(cmd_epoch, reply) {
                Ok(_) => (
                    CmdState {
                        phase: Phase::Executing,
                        sink_open: st.sink_open,
                        sink: st.sink,
                        outcome: st.outcome,
                    },
                    CmdAction::Execute,
                ),
                Err(e) => spec_finish(st, CmdOutcome::Retry(e)),
            }
        } else {
            (st, CmdAction::Wait)
        },
        CmdEvent::ExecutorDone { conflict } => if st.phase == Phase::Executing {
            spec_finish(
                st,
                if conflict {
                    CmdOutcome::Conflict
                } else {
                    CmdOutcome::Success
                },
            )
        } else {
            (st, CmdAction::Wait)
        },
    }
}

/// The state a freshly submitted command starts in, with the latch
/// request as its first action.
pub fn submit() -> (r: (CmdState, CmdAction))
    ensures
        cmd_wf(r.0),
        r.0.phase == Phase::AwaitingLatches,
        r.0.sink_open,
        !r.0.sink.fired,
        !r.0.sink.canceled,
        r.0.outcome is None,
        r.1 == CmdAction::RequestLatches,
{
    (
        CmdState {
            phase: Phase::AwaitingLatches,
            sink_open: true,
            sink: CompletionSink { fired: false, canceled: false },
            outcome: None,
        },
        CmdAction::RequestLatches,
    )
}

/// Runs one scheduling step.  Beyond the pinned transition table,
/// the contract states the lifecycle guarantees: the sink fires
/// exactly when the command finishes; the latches are released in
/// exactly the step that finishes it, whether the outcome is a
/// success, a conflict, a retryable error or a canceled delivery; a
/// finished command never changes phase again; and closing the sink
/// never changes the phase of an unfinished command.
pub fn sched_step(st: CmdState, ev: CmdEvent, cmd_epoch: u64) -> (r: (CmdState, CmdAction))
    requires
        cmd_wf(st),
    ensures
        r == spec_step(st, ev, cmd_epoch),
        cmd_wf(r.0),
        r.0.sink.fired == (r.0.phase == Phase::Finished),
        (r.1 == CmdAction::Release) == (r.0.phase == Phase::Finished && st.phase
            != Phase::Finished),
        st.phase == Phase::Finished ==> r.0.phase == Phase::Finished,
        ev == CmdEvent::SinkClosed ==> r.0.phase == st.phase,
        ev == CmdEvent::SinkClosed && st.phase != Phase::Finished ==> !r.0.sink_open,
{
    match ev {
        CmdEvent::SinkClosed => {
            if matches!(st.phase, Phase::Finished) {
                (st, CmdAction::Wait)
            } else {
                (
                    CmdState {
                        phase: st.phase,
                        sink_open: false,
                        sink: st.sink,
                        outcome: st.outcome,
                    },
                    CmdAction::Wait,
                )
            }
        }
        CmdEvent::LatchesGranted => {
            if matches!(st.phase, Phase::AwaitingLatches) {
                (
                    CmdState {
                        phase: Phase::AwaitingSnapshot,
                        sink_open: st.sink_open,
                        sink: st.sink,
                        outcome: st.outcome,
                    },
                    CmdAction::RequestSnapshot,
                )
            } else {
                (st, CmdAction::Wait)
            }
        }
        CmdEvent::SnapshotArrived(reply) => {
            if matches!(st.phase, Phase::AwaitingSnapshot) {
                match snapshot_phase(cmd_epoch, reply) {
                    Ok(_) => (
                        CmdState {
                            phase: Phase::Executing,
                            sink_open: st.sink_open,
                            sink: st.sink,
                            outcome: st.outcome,
                        },
                        CmdAction::Execute,
                    ),
                    Err(e) => finish(st, CmdOutcome::Retry(e)),
                }
            } else {
                (st, CmdAction::Wait)
            }
        }
        CmdEvent::ExecutorDone { conflict } => {
            if matches!(st.phase, Phase::Executing) {
                let o = if conflict {
                    CmdOutcome::Conflict
                } else {
                    CmdOutcome::Success
                };
                finish(st, o)
            } else {
                (st, CmdAction::Wait)
            }
        }
    }
}

/// Delivers the terminal outcome through the single-fire sink and
/// orders the latches released.
fn finish(st: CmdState, o: CmdOutcome) -> (r: (CmdState, CmdAction))
    requires
        !st.sink.fired,
    ensures
        r == spec_finish(st, o),
{
    let mut sink = st.sink;
    let delivered = deliver(&mut sink, st.sink_open);
    let outcome = if delivered {
        Some(o)
    } else {
        None
    };
    (
        CmdState { phase: Phase::Finished, sink_open: st.sink_open, sink, outcome },
        CmdAction::Release,
    )
}

/// Law (stalled snapshot under a moved epoch): however long a
/// snapshot request stalls and however often the routing epoch moves
/// meanwhile, a reply produced under any epoch other than the
/// command's own never reaches execution: the step delivers the
/// retryable staleness error, names the epoch the reply was produced
/// under, and releases the command's latches.
pub proof fn lemma_stalled_command_fails_stale(
    st: CmdState,
    term: u64,
    reply_epoch: u64,
    cmd_epoch: u64,
)
    requires
        cmd_wf(st),
        st.phase == Phase::AwaitingSnapshot,
        reply_epoch != cmd_epoch,
    ensures
        ({
            let (st2, act) = spec_step(
                st,
                CmdEvent::SnapshotArrived(SnapshotReply::Ready { term, epoch: reply_epoch }),
                cmd_epoch,
            );
            &&& st2.phase == Phase::Finished
            &&& act == CmdAction::Release
            &&& act != CmdAction::Execute
            &&& st2.sink.fired
            &&& st.sink_open ==> st2.outcome == Some(
                CmdOutcome::Retry(RetryError::EpochStale { current_epoch: reply_epoch }),
            )
        }),
{
}

/// Law (dropped sink): dropping the result sink before completion
/// neither aborts the execution nor blocks anything afterwards — the
/// later completion still fires the sink exactly once, discards the
/// result, marks the command canceled, and releases its latches.
pub proof fn lemma_dropped_sink_still_completes(st: CmdState, cmd_epoch: u64, conflict: bool)
    requires
        cmd_wf(st),
        st.phase == Phase::Executing,
    ensures
        ({
            let (st1, a1) = spec_step(st, CmdEvent::SinkClosed, cmd_epoch);
            let (st2, a2) = spec_step(st1, CmdEvent::ExecutorDone { conflict }, cmd_epoch);
            &&& st1.phase == Phase::Executing
            &&& a1 == CmdAction::Wait
            &&& st2.phase == Phase::Finished
            &&& a2 == CmdAction::Release
            &&& st2.sink.fired
            &&& st2.sink.canceled
            &&& st2.outcome is None
        }),
{
}

} // verus!
