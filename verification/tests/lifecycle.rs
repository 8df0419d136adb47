use tikv::latch::Latches;
use tikv::sched;
use tikv::sched::CmdAction;
use tikv::sched::CmdEvent;
use tikv::sched::CmdOutcome;
use tikv::sched::Phase;
use tikv::sched::RetryError;
use tikv::sched::SnapshotReply;

#[test]
fn command_lifecycle_happy_path() {
    let (st, act) = sched::submit();
    assert_eq!(act, CmdAction::RequestLatches);
    assert_eq!(st.phase, Phase::AwaitingLatches);

    let (st, act) = sched::sched_step(st, CmdEvent::LatchesGranted, 1);
    assert_eq!(act, CmdAction::RequestSnapshot);
    assert_eq!(st.phase, Phase::AwaitingSnapshot);

    let reply = SnapshotReply::Ready { term: 6, epoch: 1 };
    let (st, act) = sched::sched_step(st, CmdEvent::SnapshotArrived(reply), 1);
    assert_eq!(act, CmdAction::Execute);
    assert_eq!(st.phase, Phase::Executing);

    let (st, act) = sched::sched_step(st, CmdEvent::ExecutorDone { conflict: false }, 1);
    assert_eq!(act, CmdAction::Release);
    assert_eq!(st.phase, Phase::Finished);
    assert!(st.sink.fired);
    assert!(!st.sink.canceled);
    assert_eq!(st.outcome, Some(CmdOutcome::Success));

    // a late event is ignored: the sink never fires twice, the
    // latches are never released twice
    let (st2, act) = sched::sched_step(st, CmdEvent::ExecutorDone { conflict: false }, 1);
    assert_eq!(act, CmdAction::Wait);
    assert_eq!(st2, st);
}

#[test]
fn test_scheduler_leader_change_twice() {
    let cmd_epoch = 1;
    let (st, _) = sched::submit();
    let (st, act) = sched::sched_step(st, CmdEvent::LatchesGranted, cmd_epoch);
    assert_eq!(act, CmdAction::RequestSnapshot);

    // the snapshot request stalls; meanwhile the leadership moves
    // twice and the routing epoch with it
    let epoch_after_two_changes = 3;
    let reply = SnapshotReply::Ready { term: 8, epoch: epoch_after_two_changes };
    let (st, act) = sched::sched_step(st, CmdEvent::SnapshotArrived(reply), cmd_epoch);

    // the command must fail with the retryable staleness error — it
    // neither executes nor hangs, and its latches are released
    assert_ne!(act, CmdAction::Execute);
    assert_eq!(act, CmdAction::Release);
    assert_eq!(st.phase, Phase::Finished);
    assert_eq!(
        st.outcome,
        Some(CmdOutcome::Retry(RetryError::EpochStale { current_epoch: 3 })),
    );
}

#[test]
fn dropped_sink_completes_and_releases() {
    let mut latches = Latches::new();
    let keys = vec![b"k".to_vec()];

    let (st1, act) = sched::submit();
    assert_eq!(act, CmdAction::RequestLatches);
    assert!(latches.acquire(1, &keys));
    let (st1, _) = sched::sched_step(st1, CmdEvent::LatchesGranted, 1);

    // a second command queues behind the first on the same key
    let (st2, _) = sched::submit();
    assert!(!latches.acquire(2, &keys));

    let reply = SnapshotReply::Ready { term: 1, epoch: 1 };
    let (st1, act) = sched::sched_step(st1, CmdEvent::SnapshotArrived(reply), 1);
    assert_eq!(act, CmdAction::Execute);

    // the caller drops its sink mid-flight: execution is not aborted
    let (st1, act) = sched::sched_step(st1, CmdEvent::SinkClosed, 1);
    assert_eq!(act, CmdAction::Wait);
    assert_eq!(st1.phase, Phase::Executing);

    // the executor still completes; the result is discarded and the
    // command marked canceled, but the latches are still released
    let (st1, act) = sched::sched_step(st1, CmdEvent::ExecutorDone { conflict: false }, 1);
    assert_eq!(act, CmdAction::Release);
    assert!(st1.sink.fired);
    assert!(st1.sink.canceled);
    assert_eq!(st1.outcome, None);

    let woken = latches.release(1, &keys);
    assert!(woken.contains(&2));
    assert!(latches.all_held(2, &keys));
    let (st2, act) = sched::sched_step(st2, CmdEvent::LatchesGranted, 1);
    assert_eq!(act, CmdAction::RequestSnapshot);
    assert_eq!(st2.phase, Phase::AwaitingSnapshot);
}

#[test]
fn staleness_signals_map_one_to_one() {
    assert_eq!(
        sched::snapshot_phase(5, SnapshotReply::EpochStale { current_epoch: 7 }),
        Err(RetryError::EpochStale { current_epoch: 7 }),
    );
    assert_eq!(sched::snapshot_phase(5, SnapshotReply::NotLeader), Err(RetryError::NotLeader));
    assert_eq!(
        sched::snapshot_phase(5, SnapshotReply::RegionNotFound),
        Err(RetryError::RegionNotFound),
    );
    assert_eq!(sched::snapshot_phase(5, SnapshotReply::Ready { term: 2, epoch: 5 }), Ok(()));
}

#[test]
fn conflict_outcome_is_delivered() {
    let (st, _) = sched::submit();
    let (st, _) = sched::sched_step(st, CmdEvent::LatchesGranted, 1);
    let reply = SnapshotReply::Ready { term: 1, epoch: 1 };
    let (st, _) = sched::sched_step(st, CmdEvent::SnapshotArrived(reply), 1);
    let (st, act) = sched::sched_step(st, CmdEvent::ExecutorDone { conflict: true }, 1);
    assert_eq!(act, CmdAction::Release);
    assert_eq!(st.outcome, Some(CmdOutcome::Conflict));
}
