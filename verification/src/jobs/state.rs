//! The job state machine.
//!
//! ```text
//! Queued -> Running -> Completed
//!                   -> Failed
//!                   -> Cancelled
//!                   -> WaitingForUser
//! ```
//!
//! A terminal state is never left, and `Completed` is reached from `Running`
//! only, so "done" always means work actually ran.

use vstd::prelude::*;

use crate::error::{Error, ErrorCode};
use crate::text::{push_str};

verus! {

/// Where a job is in its life.
#[derive(Debug, Clone, Copy, PartialEq, Eq, Structural, Hash)]
pub enum JobState {
    /// Accepted, not started.
    Queued,
    /// Doing work.
    Running,
    /// Paused for a decision such as a conflict resolution.
    WaitingForUser,
    /// Finished successfully. Terminal.
    Completed,
    /// Finished unsuccessfully. Terminal.
    Failed,
    /// Stopped on request. Terminal.
    Cancelled,
}

/// A transition that the state machine refused.
#[derive(Debug, Clone, Copy, PartialEq, Eq, Structural)]
pub struct TransitionError {
    /// The state the job was in.
    pub from: JobState,
    /// The state that was requested.
    pub to: JobState,
}

/// Whether a state admits no further transition.
pub open spec fn terminal(s: JobState) -> bool {
    s == JobState::Completed || s == JobState::Failed || s == JobState::Cancelled
}

/// Whether a job in this state is doing or about to do work.
pub open spec fn active(s: JobState) -> bool {
    s == JobState::Queued || s == JobState::Running || s == JobState::WaitingForUser
}

/// The legal successors of each state.
pub open spec fn legal(from: JobState, to: JobState) -> bool {
    match from {
        JobState::Queued => to == JobState::Running || to == JobState::Cancelled || to
            == JobState::Failed,
        JobState::Running => to == JobState::Completed || to == JobState::Failed || to
            == JobState::Cancelled || to == JobState::WaitingForUser,
        JobState::WaitingForUser => to == JobState::Running || to == JobState::Cancelled || to
            == JobState::Failed,
        _ => false,
    }
}

/// The name a state goes by in diagnostics.
pub open spec fn state_name(s: JobState) -> Seq<char> {
    match s {
        JobState::Queued => "Queued"@,
        JobState::Running => "Running"@,
        JobState::WaitingForUser => "WaitingForUser"@,
        JobState::Completed => "Completed"@,
        JobState::Failed => "Failed"@,
        JobState::Cancelled => "Cancelled"@,
    }
}

/// The localisation key of a state's label.
pub open spec fn state_label_key(s: JobState) -> Seq<char> {
    match s {
        JobState::Queued => "jobs.state.queued"@,
        JobState::Running => "jobs.state.running"@,
        JobState::WaitingForUser => "jobs.state.waiting_for_user"@,
        JobState::Completed => "jobs.state.completed"@,
        JobState::Failed => "jobs.state.failed"@,
        JobState::Cancelled => "jobs.state.cancelled"@,
    }
}

impl JobState {
    /// Whether no further transition is possible.
    pub fn is_terminal(self) -> (r: bool)
        ensures
            r == terminal(self),
    {
        matches!(self, Self::Completed | Self::Failed | Self::Cancelled)
    }

    /// Whether the job is doing or about to do work.
    pub fn is_active(self) -> (r: bool)
        ensures
            r == active(self),
    {
        matches!(self, Self::Queued | Self::Running | Self::WaitingForUser)
    }

    /// Whether a cancel request can still be honoured. A queued job can be
    /// cancelled before it ever starts.
    pub fn is_cancellable(self) -> (r: bool)
        ensures
            r == active(self),
    {
        self.is_active()
    }

    /// Whether `next` is a legal successor.
    pub fn can_transition_to(self, next: Self) -> (r: bool)
        ensures
            r == legal(self, next),
    {
        match self {
            Self::Queued => matches!(next, Self::Running | Self::Cancelled | Self::Failed),
            Self::Running => matches!(
                next,
                Self::Completed | Self::Failed | Self::Cancelled | Self::WaitingForUser
            ),
            Self::WaitingForUser => matches!(next, Self::Running | Self::Cancelled | Self::Failed),
            Self::Completed | Self::Failed | Self::Cancelled => false,
        }
    }

    /// Apply a transition: the new state if it is legal, and both ends
    /// otherwise.
    pub fn transition_to(self, next: Self) -> (r: Result<Self, TransitionError>)
        ensures
            legal(self, next) ==> r == Ok::<JobState, TransitionError>(next),
            !legal(self, next) ==> r == Err::<JobState, TransitionError>(
                TransitionError { from: self, to: next },
            ),
    {
        if self.can_transition_to(next) {
            Ok(next)
        } else {
            Err(TransitionError { from: self, to: next })
        }
    }

    /// Localisation key for the state label.
    pub fn label_key(self) -> (r: &'static str)
        ensures
            r@ == state_label_key(self),
    {
        match self {
            Self::Queued => "jobs.state.queued",
            Self::Running => "jobs.state.running",
            Self::WaitingForUser => "jobs.state.waiting_for_user",
            Self::Completed => "jobs.state.completed",
            Self::Failed => "jobs.state.failed",
            Self::Cancelled => "jobs.state.cancelled",
        }
    }

    /// The state's name, as diagnostics write it.
    pub fn name(self) -> (r: &'static str)
        ensures
            r@ == state_name(self),
    {
        match self {
            Self::Queued => "Queued",
            Self::Running => "Running",
            Self::WaitingForUser => "WaitingForUser",
            Self::Completed => "Completed",
            Self::Failed => "Failed",
            Self::Cancelled => "Cancelled",
        }
    }

    /// Every state, for exhaustive tests.
    pub fn all() -> (r: Vec<JobState>)
        ensures
            r@.len() == 6,
            forall|s: JobState| r@.contains(s),
    {
        let r = vec![
            Self::Queued,
            Self::Running,
            Self::WaitingForUser,
            Self::Completed,
            Self::Failed,
            Self::Cancelled,
        ];
        proof {
            assert forall|s: JobState| r@.contains(s) by {
                match s {
                    JobState::Queued => assert(r@[0] == s),
                    JobState::Running => assert(r@[1] == s),
                    JobState::WaitingForUser => assert(r@[2] == s),
                    JobState::Completed => assert(r@[3] == s),
                    JobState::Failed => assert(r@[4] == s),
                    JobState::Cancelled => assert(r@[5] == s),
                }
            }
        }
        r
    }
}

/// The diagnostic text of a refused transition.
pub open spec fn transition_text(e: TransitionError) -> Seq<char> {
    "illegal job transition "@ + state_name(e.from) + " -> "@ + state_name(e.to)
}

impl TransitionError {
    /// What was refused, for logs: `illegal job transition Queued -> Completed`.
    pub fn to_string(&self) -> (r: String)
        ensures
            r@ == transition_text(*self),
    {
        let mut out = String::new();
        push_str(&mut out, "illegal job transition ");
        push_str(&mut out, self.from.name());
        push_str(&mut out, " -> ");
        push_str(&mut out, self.to.name());
        out
    }
}

impl From<TransitionError> for Error {
    /// A refused transition is a bug in this program, so it becomes an
    /// internal error that names both ends.
    fn from(value: TransitionError) -> (r: Self)
        ensures
            r.spec_code() == ErrorCode::Internal,
            r.spec_context() == transition_text(value),
    {
        Error::with_context(ErrorCode::Internal, value.to_string())
    }
}

impl vstd::std_specs::convert::FromSpecImpl<TransitionError> for Error {
    open spec fn obeys_from_spec() -> bool {
        false
    }

    open spec fn from_spec(v: TransitionError) -> Error {
        arbitrary()
    }
}

/// A terminal state is never left.
pub proof fn law_terminal_states_are_final(from: JobState, to: JobState)
    requires
        terminal(from),
    ensures
        !legal(from, to),
{
}

/// `Completed` is reached from `Running` and from nowhere else.
pub proof fn law_completed_only_from_running(from: JobState)
    ensures
        legal(from, JobState::Completed) <==> from == JobState::Running,
{
}

/// Every state that is still active can be cancelled, and the cancellable
/// states are exactly the active ones.
pub proof fn law_active_states_can_be_cancelled(s: JobState)
    ensures
        active(s) <==> legal(s, JobState::Cancelled),
        active(s) <==> !terminal(s),
{
}

} // verus!
