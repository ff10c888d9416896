use filework::error::{Error, ErrorCode};
use filework::jobs::{CancellationToken, Cancelled, Job, JobId, JobKind, JobState, Progress};

#[test]
fn cancelling_is_observed_by_every_clone() {
    let (token, canceller) = CancellationToken::new();
    let clone = token.clone();
    assert!(!token.is_cancelled());

    canceller.cancel();

    assert!(token.is_cancelled());
    assert!(clone.is_cancelled());
    assert!(canceller.token().is_cancelled());
}

#[test]
fn cancellation_is_irreversible_and_idempotent() {
    let (token, canceller) = CancellationToken::new();
    canceller.cancel();
    canceller.cancel();
    assert!(token.is_cancelled(), "there is no way back from cancelled");
}

fn work(token: &CancellationToken) -> Result<u32, Cancelled> {
    let mut done = 0;
    for _ in 0..1000 {
        token.check()?;
        done += 1;
    }
    Ok(done)
}

#[test]
fn check_is_usable_with_the_question_mark_operator() {
    assert_eq!(work(&CancellationToken::never()), Ok(1000));
    assert_eq!(work(&CancellationToken::cancelled()), Err(Cancelled));

    let core_err: Error = Cancelled.into();
    assert_eq!(core_err.code(), ErrorCode::Cancelled);
}

#[test]
fn a_stale_request_can_be_abandoned_independently() {
    let (first, cancel_first) = CancellationToken::new();
    let (second, _cancel_second) = CancellationToken::new();
    cancel_first.cancel();
    assert!(first.is_cancelled());
    assert!(!second.is_cancelled());
}

#[test]
fn a_duplicate_token_shares_the_signal() {
    let (token, canceller) = CancellationToken::new();
    let copy = token.duplicate();
    canceller.cancel();
    assert!(copy.is_cancelled());
    assert!(canceller.is_cancelled());
    assert!(!CancellationToken::default().is_cancelled());
}

fn job(kind: JobKind) -> Job {
    Job::new(JobId::new(1), kind)
}

#[test]
fn a_new_job_is_queued_with_no_progress_and_no_error() {
    let j = job(JobKind::Copy);
    assert_eq!(j.state(), JobState::Queued);
    assert!(j.progress().is_indeterminate());
    assert!(j.error().is_none());
    assert!(!j.token().is_cancelled());
}

#[test]
fn completing_snaps_progress_to_the_total() {
    let mut j = job(JobKind::Copy);
    j.set_progress(Progress::with_total(100).advance(97));
    j.start().unwrap();
    j.complete().unwrap();
    assert_eq!(j.state(), JobState::Completed);
    assert_eq!(j.progress().completed(), 100, "a completed job is not at 97%");
}

#[test]
fn cancelling_signals_the_worker_before_recording_the_state() {
    let mut j = job(JobKind::Search);
    let token = j.token();
    j.start().unwrap();
    j.cancel().unwrap();
    assert!(token.is_cancelled(), "the worker must see the signal");
    assert_eq!(j.state(), JobState::Cancelled);
}

#[test]
fn a_queued_job_can_be_cancelled_before_it_starts() {
    let mut j = job(JobKind::Index);
    j.cancel().unwrap();
    assert_eq!(j.state(), JobState::Cancelled);
    assert!(j.token().is_cancelled());
}

#[test]
fn failing_records_a_machine_readable_code() {
    let mut j = job(JobKind::Extract);
    j.start().unwrap();
    j.fail(Error::new(ErrorCode::LimitExceeded, "ratio bomb")).unwrap();
    assert_eq!(j.state(), JobState::Failed);
    assert_eq!(j.error().unwrap().code(), ErrorCode::LimitExceeded);
}

#[test]
fn a_terminal_job_cannot_be_restarted() {
    let mut j = job(JobKind::Copy);
    j.start().unwrap();
    j.complete().unwrap();
    assert!(j.start().is_err());
    assert!(j.cancel().is_err());
    assert!(j.fail(Error::bare(ErrorCode::Io)).is_err());
}

#[test]
fn conflict_round_trip_pauses_and_resumes() {
    let mut j = job(JobKind::Move);
    j.start().unwrap();
    j.wait_for_user().unwrap();
    assert_eq!(j.state(), JobState::WaitingForUser);
    j.start().unwrap();
    assert_eq!(j.state(), JobState::Running);
    j.complete().unwrap();
}

#[test]
fn destructive_kinds_are_flagged_and_undo_claims_are_conservative() {
    assert!(JobKind::Delete.mutates_filesystem());
    assert!(!JobKind::Delete.is_undoable(), "permanent delete must never claim undo");
    assert!(JobKind::Trash.is_undoable());
    assert!(!JobKind::Search.mutates_filesystem());
    assert!(JobKind::ExternalAgent.mutates_filesystem(), "an agent writes files");
    assert!(!JobKind::ExternalAgent.is_undoable());
}

#[test]
fn every_kind_has_a_distinct_label_key() {
    let mut keys: Vec<_> = JobKind::all().iter().map(|k| k.label_key()).collect();
    keys.sort_unstable();
    let before = keys.len();
    keys.dedup();
    assert_eq!(keys.len(), before);
}

#[test]
fn undoable_implies_it_actually_changes_something() {
    for kind in JobKind::all() {
        if kind.is_undoable() {
            assert!(kind.mutates_filesystem(), "{kind:?} claims undo but changes nothing");
        }
    }
}

#[test]
fn a_refused_transition_leaves_the_job_as_it_was() {
    let mut j = job(JobKind::Copy);
    let err = j.complete().unwrap_err();
    assert_eq!(err.from, JobState::Queued);
    assert_eq!(err.to, JobState::Completed);
    assert_eq!(j.state(), JobState::Queued);
    assert_eq!(j.id().get(), 1);
    assert_eq!(j.kind(), JobKind::Copy);
}

#[test]
fn never_moves_backwards() {
    let p = Progress::with_total(100).set_completed(80).set_completed(20);
    assert_eq!(p.completed(), 80, "a late smaller report must not retreat the bar");
}

#[test]
fn a_total_discovered_later_cannot_be_below_what_is_done() {
    let p = Progress::indeterminate().advance(50).set_total(10);
    assert_eq!(p.total(), Some(50));
    assert!(p.is_full());
}

#[test]
fn saturates_instead_of_overflowing() {
    let p = Progress::indeterminate().advance(u64::MAX).advance(u64::MAX);
    assert_eq!(p.completed(), u64::MAX);
}

#[test]
fn full_progress_does_not_mean_completed() {
    let p = Progress::with_total(5).advance(5);
    assert!(p.is_full());
}

#[test]
fn advancing_stops_at_the_total_and_unknown_is_never_full() {
    let p = Progress::with_total(10).advance(99);
    assert_eq!(p.completed(), 10);
    assert!(p.is_full());
    let q = Progress::indeterminate().advance(1000);
    assert!(q.is_indeterminate());
    assert!(!q.is_full());
    assert!(Progress::with_total(0).is_full());
    assert_eq!(Progress::default(), Progress::indeterminate());
}

#[test]
fn the_documented_happy_path_is_legal() {
    let s = JobState::Queued.transition_to(JobState::Running).unwrap();
    let s = s.transition_to(JobState::Completed).unwrap();
    assert!(s.is_terminal());
}

#[test]
fn running_may_end_four_ways() {
    for end in [JobState::Completed, JobState::Failed, JobState::Cancelled, JobState::WaitingForUser] {
        assert!(JobState::Running.can_transition_to(end), "Running -> {end:?}");
    }
}

#[test]
fn waiting_for_user_resumes_to_running() {
    let s = JobState::Running.transition_to(JobState::WaitingForUser).unwrap();
    assert_eq!(s.transition_to(JobState::Running).unwrap(), JobState::Running);
}

#[test]
fn terminal_states_are_final() {
    for terminal in [JobState::Completed, JobState::Failed, JobState::Cancelled] {
        assert!(terminal.is_terminal());
        for next in JobState::all() {
            assert!(!terminal.can_transition_to(next), "{terminal:?} must not transition to {next:?}");
        }
    }
}

#[test]
fn completed_is_reachable_only_from_running() {
    for from in JobState::all() {
        let allowed = from.can_transition_to(JobState::Completed);
        assert_eq!(allowed, from == JobState::Running, "{from:?} -> Completed");
    }
}

#[test]
fn cancellation_is_reachable_from_every_active_state() {
    for state in JobState::all() {
        if state.is_active() {
            assert!(state.is_cancellable());
            assert!(state.can_transition_to(JobState::Cancelled), "{state:?} must be cancellable");
        } else {
            assert!(!state.is_cancellable());
        }
    }
}

#[test]
fn illegal_transitions_report_both_ends() {
    let err = JobState::Queued.transition_to(JobState::Completed).unwrap_err();
    assert_eq!(err.from, JobState::Queued);
    assert_eq!(err.to, JobState::Completed);

    let core_err: Error = err.into();
    assert_eq!(core_err.code(), ErrorCode::Internal);
}

#[test]
fn every_state_has_a_distinct_label_key() {
    let mut keys: Vec<_> = JobState::all().iter().map(|s| s.label_key()).collect();
    keys.sort_unstable();
    let before = keys.len();
    keys.dedup();
    assert_eq!(keys.len(), before);
}
