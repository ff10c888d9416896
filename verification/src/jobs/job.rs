//! A unit of tracked work.

use vstd::prelude::*;

use crate::error::Error;
use crate::jobs::cancel::{CancellationToken, Canceller};
use crate::jobs::progress::Progress;
use crate::jobs::state::{legal, JobState, TransitionError};

verus! {

/// Identifier for a job within a session.
#[derive(Debug, Clone, Copy, PartialEq, Eq, Hash, PartialOrd, Ord)]
pub struct JobId(u64);

impl JobId {
    /// The raw identifier, for specifications.
    pub closed spec fn raw(self) -> u64 {
        self.0
    }

    /// Wrap a raw identifier.
    pub fn new(raw: u64) -> (r: Self)
        ensures
            r.raw() == raw,
    {
        Self(raw)
    }

    /// The raw identifier.
    pub fn get(self) -> (r: u64)
        ensures
            r == self.raw(),
    {
        self.0
    }
}

/// What a job is doing.
#[derive(Debug, Clone, Copy, PartialEq, Eq, Structural, Hash)]
pub enum JobKind {
    /// Enumerating a directory.
    Enumerate,
    /// Copying entries.
    Copy,
    /// Moving entries.
    Move,
    /// Renaming, including batch rename.
    Rename,
    /// Moving to the platform trash.
    Trash,
    /// Permanent deletion.
    Delete,
    /// Computing a recursive size.
    RecursiveSize,
    /// Hashing content.
    Hash,
    /// Creating an archive.
    Compress,
    /// Extracting from an archive.
    Extract,
    /// Listing archive members without extracting.
    ArchiveScan,
    /// Running a search.
    Search,
    /// Building or updating an index.
    Index,
    /// Generating a thumbnail.
    Thumbnail,
    /// Preparing a preview.
    Preview,
    /// Calling an AI provider.
    AiRequest,
    /// Running an external agent.
    ExternalAgent,
}

/// Whether a kind can change the filesystem.
pub open spec fn mutates(k: JobKind) -> bool {
    match k {
        JobKind::Copy | JobKind::Move | JobKind::Rename | JobKind::Trash | JobKind::Delete
        | JobKind::Compress | JobKind::Extract | JobKind::ExternalAgent => true,
        _ => false,
    }
}

/// Whether a completed job of a kind can be undone safely.
pub open spec fn undoable(k: JobKind) -> bool {
    match k {
        JobKind::Copy | JobKind::Move | JobKind::Rename | JobKind::Trash => true,
        _ => false,
    }
}

/// The localisation key of a kind's label.
pub open spec fn kind_label_key(k: JobKind) -> Seq<char> {
    match k {
        JobKind::Enumerate => "jobs.kind.enumerate"@,
        JobKind::Copy => "jobs.kind.copy"@,
        JobKind::Move => "jobs.kind.move"@,
        JobKind::Rename => "jobs.kind.rename"@,
        JobKind::Trash => "jobs.kind.trash"@,
        JobKind::Delete => "jobs.kind.delete"@,
        JobKind::RecursiveSize => "jobs.kind.recursive_size"@,
        JobKind::Hash => "jobs.kind.hash"@,
        JobKind::Compress => "jobs.kind.compress"@,
        JobKind::Extract => "jobs.kind.extract"@,
        JobKind::ArchiveScan => "jobs.kind.archive_scan"@,
        JobKind::Search => "jobs.kind.search"@,
        JobKind::Index => "jobs.kind.index"@,
        JobKind::Thumbnail => "jobs.kind.thumbnail"@,
        JobKind::Preview => "jobs.kind.preview"@,
        JobKind::AiRequest => "jobs.kind.ai_request"@,
        JobKind::ExternalAgent => "jobs.kind.external_agent"@,
    }
}

impl JobKind {
    /// Whether this kind can change the filesystem.
    pub fn mutates_filesystem(self) -> (r: bool)
        ensures
            r == mutates(self),
    {
        matches!(
            self,
            Self::Copy | Self::Move | Self::Rename | Self::Trash | Self::Delete | Self::Compress
                | Self::Extract | Self::ExternalAgent
        )
    }

    /// Whether a completed job of this kind can be undone safely.
    /// Conservative on purpose: a wrong `true` would be a lie to the user.
    pub fn is_undoable(self) -> (r: bool)
        ensures
            r == undoable(self),
    {
        matches!(self, Self::Copy | Self::Move | Self::Rename | Self::Trash)
    }

    /// Localisation key for the job's label.
    pub fn label_key(self) -> (r: &'static str)
        ensures
            r@ == kind_label_key(self),
    {
        match self {
            Self::Enumerate => "jobs.kind.enumerate",
            Self::Copy => "jobs.kind.copy",
            Self::Move => "jobs.kind.move",
            Self::Rename => "jobs.kind.rename",
            Self::Trash => "jobs.kind.trash",
            Self::Delete => "jobs.kind.delete",
            Self::RecursiveSize => "jobs.kind.recursive_size",
            Self::Hash => "jobs.kind.hash",
            Self::Compress => "jobs.kind.compress",
            Self::Extract => "jobs.kind.extract",
            Self::ArchiveScan => "jobs.kind.archive_scan",
            Self::Search => "jobs.kind.search",
            Self::Index => "jobs.kind.index",
            Self::Thumbnail => "jobs.kind.thumbnail",
            Self::Preview => "jobs.kind.preview",
            Self::AiRequest => "jobs.kind.ai_request",
            Self::ExternalAgent => "jobs.kind.external_agent",
        }
    }

    /// Every kind, for exhaustive tests and catalogue parity.
    pub fn all() -> (r: Vec<JobKind>)
        ensures
            r@.len() == 17,
    {
        vec![
            Self::Enumerate,
            Self::Copy,
            Self::Move,
            Self::Rename,
            Self::Trash,
            Self::Delete,
            Self::RecursiveSize,
            Self::Hash,
            Self::Compress,
            Self::Extract,
            Self::ArchiveScan,
            Self::Search,
            Self::Index,
            Self::Thumbnail,
            Self::Preview,
            Self::AiRequest,
            Self::ExternalAgent,
        ]
    }
}

/// A kind that claims undo actually changes something.
pub proof fn law_undoable_kinds_mutate(k: JobKind)
    requires
        undoable(k),
    ensures
        mutates(k),
{
}

/// Progress snapped to its total, where it has one.
pub open spec fn snapped(p: Progress) -> Progress {
    match p.spec_total() {
        Some(t) => p.set_completed_spec(t),
        None => p,
    }
}

/// A tracked unit of work.
#[derive(Debug, Clone)]
pub struct Job {
    id: JobId,
    kind: JobKind,
    state: JobState,
    progress: Progress,
    error: Option<Error>,
    token: CancellationToken,
    canceller: Canceller,
}

impl Job {
    /// The state, for specifications.
    pub closed spec fn spec_state(&self) -> JobState {
        self.state
    }

    /// The progress, for specifications.
    pub closed spec fn spec_progress(&self) -> Progress {
        self.progress
    }

    /// The failure detail, for specifications.
    pub closed spec fn spec_error(&self) -> Option<Error> {
        self.error
    }

    /// The identifier, for specifications.
    pub closed spec fn spec_id(&self) -> JobId {
        self.id
    }

    /// The kind, for specifications.
    pub closed spec fn spec_kind(&self) -> JobKind {
        self.kind
    }

    /// Whether the job has signalled its worker to stop.
    pub closed spec fn spec_signalled(&self) -> bool {
        self.canceller.raised()
    }

    /// The token handed to the worker, for specifications.
    pub closed spec fn spec_token(&self) -> CancellationToken {
        self.token
    }

    /// Create a queued job.
    pub fn new(id: JobId, kind: JobKind) -> (r: Self)
        ensures
            r.spec_token().fixed() is None,
            !r.spec_signalled(),
            r.spec_id() == id,
            r.spec_kind() == kind,
            r.spec_state() == JobState::Queued,
            r.spec_progress().spec_completed() == 0,
            r.spec_progress().spec_total() is None,
            r.spec_error() is None,
    {
        let (token, canceller) = CancellationToken::new();
        Self {
            id,
            kind,
            state: JobState::Queued,
            progress: Progress::indeterminate(),
            error: None,
            token,
            canceller,
        }
    }

    /// Identifier.
    pub fn id(&self) -> (r: JobId)
        ensures
            r == self.spec_id(),
    {
        self.id
    }

    /// What the job does.
    pub fn kind(&self) -> (r: JobKind)
        ensures
            r == self.spec_kind(),
    {
        self.kind
    }

    /// Current state.
    pub fn state(&self) -> (r: JobState)
        ensures
            r == self.spec_state(),
    {
        self.state
    }

    /// Current progress.
    pub fn progress(&self) -> (r: Progress)
        ensures
            r == self.spec_progress(),
    {
        self.progress
    }

    /// Failure detail, once the job has failed.
    pub fn error(&self) -> (r: Option<&Error>)
        ensures
            r is Some <==> self.spec_error() is Some,
            r is Some ==> *r->0 == self.spec_error()->0,
    {
        self.error.as_ref()
    }

    /// A token the worker checks to notice cancellation.
    pub fn token(&self) -> (r: CancellationToken)
        ensures
            r.fixed() == self.spec_token().fixed(),
    {
        self.token.duplicate()
    }

    /// Replace progress; [`Progress`] enforces monotonicity itself.
    pub fn set_progress(&mut self, progress: Progress)
        ensures
            final(self).spec_progress() == progress,
            final(self).spec_state() == old(self).spec_state(),
            final(self).spec_error() == old(self).spec_error(),
    {
        self.progress = progress;
    }

    /// Move to `next`, or refuse and change nothing.
    pub fn transition_to(&mut self, next: JobState) -> (r: Result<(), TransitionError>)
        ensures
            legal(old(self).spec_state(), next) ==> r is Ok && final(self).spec_state() == next,
            !legal(old(self).spec_state(), next) ==> r == Err::<(), TransitionError>(
                TransitionError { from: old(self).spec_state(), to: next },
            ) && final(self).spec_state() == old(self).spec_state(),
            final(self).spec_progress() == old(self).spec_progress(),
            final(self).spec_error() == old(self).spec_error(),
            final(self).spec_token() == old(self).spec_token(),
            final(self).spec_signalled() == old(self).spec_signalled(),
    {
        match self.state.transition_to(next) {
            Ok(s) => {
                self.state = s;
                Ok(())
            },
            Err(e) => Err(e),
        }
    }

    /// Start the job, from queued or waiting.
    pub fn start(&mut self) -> (r: Result<(), TransitionError>)
        ensures
            legal(old(self).spec_state(), JobState::Running) ==> r is Ok && final(self).spec_state()
                == JobState::Running,
            !legal(old(self).spec_state(), JobState::Running) ==> r == Err::<(), TransitionError>(
                TransitionError { from: old(self).spec_state(), to: JobState::Running },
            ) && final(self).spec_state() == old(self).spec_state(),
            final(self).spec_progress() == old(self).spec_progress(),
            final(self).spec_error() == old(self).spec_error(),
    {
        self.transition_to(JobState::Running)
    }

    /// Finish successfully; progress snaps to its total so a completed job
    /// never renders at 97 %.
    pub fn complete(&mut self) -> (r: Result<(), TransitionError>)
        ensures
            old(self).spec_state() == JobState::Running ==> r is Ok
                && final(self).spec_state() == JobState::Completed
                && final(self).spec_progress() == snapped(old(self).spec_progress()),
            old(self).spec_state() != JobState::Running ==> r == Err::<(), TransitionError>(
                TransitionError { from: old(self).spec_state(), to: JobState::Completed },
            ) && final(self).spec_state() == old(self).spec_state()
                && final(self).spec_progress() == old(self).spec_progress(),
            final(self).spec_error() == old(self).spec_error(),
    {
        self.transition_to(JobState::Completed)?;
        if let Some(total) = self.progress.total() {
            self.progress = self.progress.set_completed(total);
        }
        Ok(())
    }

    /// Fail with detail, unless the job was already terminal.
    pub fn fail(&mut self, error: Error) -> (r: Result<(), TransitionError>)
        ensures
            legal(old(self).spec_state(), JobState::Failed) ==> r is Ok && final(self).spec_state()
                == JobState::Failed && final(self).spec_error() == Some(error),
            !legal(old(self).spec_state(), JobState::Failed) ==> r == Err::<(), TransitionError>(
                TransitionError { from: old(self).spec_state(), to: JobState::Failed },
            ) && final(self).spec_state() == old(self).spec_state() && final(self).spec_error()
                == old(self).spec_error(),
            final(self).spec_progress() == old(self).spec_progress(),
    {
        self.transition_to(JobState::Failed)?;
        self.error = Some(error);
        Ok(())
    }

    /// Pause for a user decision such as a conflict.
    pub fn wait_for_user(&mut self) -> (r: Result<(), TransitionError>)
        ensures
            old(self).spec_state() == JobState::Running ==> r is Ok && final(self).spec_state()
                == JobState::WaitingForUser,
            old(self).spec_state() != JobState::Running ==> r == Err::<(), TransitionError>(
                TransitionError { from: old(self).spec_state(), to: JobState::WaitingForUser },
            ) && final(self).spec_state() == old(self).spec_state(),
            final(self).spec_progress() == old(self).spec_progress(),
            final(self).spec_error() == old(self).spec_error(),
    {
        self.transition_to(JobState::WaitingForUser)
    }

    /// Request cancellation and record it. The worker is signalled first, so a
    /// worker mid-loop stops even if the state update races with it.
    pub fn cancel(&mut self) -> (r: Result<(), TransitionError>)
        ensures
            legal(old(self).spec_state(), JobState::Cancelled) ==> r is Ok && final(self).spec_state()
                == JobState::Cancelled,
            !legal(old(self).spec_state(), JobState::Cancelled) ==> r == Err::<(), TransitionError>(
                TransitionError { from: old(self).spec_state(), to: JobState::Cancelled },
            ) && final(self).spec_state() == old(self).spec_state(),
            final(self).spec_progress() == old(self).spec_progress(),
            final(self).spec_error() == old(self).spec_error(),
            final(self).spec_token() == old(self).spec_token(),
            final(self).spec_signalled(),
    {
        self.canceller.request();
        self.transition_to(JobState::Cancelled)
    }
}

} // verus!
