//! Cancellation.
//!
//! A token is cheap to check, safe to share across threads, and impossible to
//! un-cancel. A token that was made already cancelled, or made never to be
//! cancelled, answers the same way every time, and that much is proved; what a
//! shared signal reads depends on another thread and is stated of no value.

use std::sync::atomic::{AtomicBool, Ordering};
use std::sync::Arc;

use vstd::prelude::*;

use crate::error::{Error, ErrorCode};

verus! {

/// Returned by [`CancellationToken::check`] when cancellation was requested.
#[derive(Debug, Clone, Copy, PartialEq, Eq)]
pub struct Cancelled;

impl From<Cancelled> for Error {
    fn from(value: Cancelled) -> (r: Self)
        ensures
            r.spec_code() == ErrorCode::Cancelled,
            r.spec_context() == Seq::<char>::empty(),
    {
        Error::bare(ErrorCode::Cancelled)
    }
}

impl vstd::std_specs::convert::FromSpecImpl<Cancelled> for Error {
    open spec fn obeys_from_spec() -> bool {
        false
    }

    open spec fn from_spec(v: Cancelled) -> Error {
        arbitrary()
    }
}

/// Where a token's answer comes from.
#[derive(Debug, Clone)]
enum Signal {
    /// Never cancelled.
    Never,
    /// Cancelled from the start.
    Always,
    /// Shared with a [`Canceller`].
    Shared(Arc<AtomicBool>),
}

/// The read side of a cancellation signal. Every clone observes the same
/// signal.
#[derive(Debug, Clone)]
pub struct CancellationToken {
    signal: Signal,
}

/// The write side, held by whoever may cancel.
#[derive(Debug, Clone)]
pub struct Canceller {
    flag: Arc<AtomicBool>,
    raised: bool,
}

impl CancellationToken {
    /// The answer a token gives whatever any other thread does, where it has
    /// one: `Some(false)` for a token never to be cancelled, `Some(true)` for
    /// one cancelled from the start, `None` for a shared signal.
    pub closed spec fn fixed(&self) -> Option<bool> {
        match self.signal {
            Signal::Never => Some(false),
            Signal::Always => Some(true),
            Signal::Shared(_) => None,
        }
    }

    /// Create a linked token and canceller.
    pub fn new() -> (r: (Self, Canceller))
        ensures
            r.0.fixed() is None,
            !r.1.raised(),
    {
        let flag = Arc::new(AtomicBool::new(false));
        (Self { signal: Signal::Shared(Arc::clone(&flag)) }, Canceller { flag, raised: false })
    }

    /// A token that is never cancelled.
    pub fn never() -> (r: Self)
        ensures
            r.fixed() == Some(false),
    {
        Self { signal: Signal::Never }
    }

    /// A token that is already cancelled.
    pub fn cancelled() -> (r: Self)
        ensures
            r.fixed() == Some(true),
    {
        Self { signal: Signal::Always }
    }

    /// Whether cancellation has been requested.
    pub fn is_cancelled(&self) -> (r: bool)
        ensures
            self.fixed() is Some ==> r == self.fixed()->0,
    {
        match &self.signal {
            Signal::Never => false,
            Signal::Always => true,
            Signal::Shared(flag) => flag.load(Ordering::Acquire),
        }
    }

    /// [`Cancelled`] if cancelled, for use with `?` inside a work loop.
    pub fn check(&self) -> (r: Result<(), Cancelled>)
        ensures
            self.fixed() == Some(true) ==> r is Err,
            self.fixed() == Some(false) ==> r is Ok,
    {
        if self.is_cancelled() {
            Err(Cancelled)
        } else {
            Ok(())
        }
    }

    /// A copy observing the same signal.
    pub fn duplicate(&self) -> (r: Self)
        ensures
            r.fixed() == self.fixed(),
    {
        match &self.signal {
            Signal::Never => Self { signal: Signal::Never },
            Signal::Always => Self { signal: Signal::Always },
            Signal::Shared(flag) => Self { signal: Signal::Shared(Arc::clone(flag)) },
        }
    }
}

impl Default for CancellationToken {
    fn default() -> (r: Self)
        ensures
            r.fixed() == Some(false),
    {
        Self::never()
    }
}

impl Canceller {
    /// Whether cancellation has been requested through this handle. What a
    /// token reads of it depends on the threads that share the signal.
    pub closed spec fn raised(&self) -> bool {
        self.raised
    }

    /// Request cancellation, through a handle shared with other threads.
    /// Idempotent, and irreversible by design.
    pub fn cancel(&self) {
        self.flag.store(true, Ordering::Release);
    }

    /// Request cancellation through this handle, and record that it did.
    pub fn request(&mut self)
        ensures
            final(self).raised(),
    {
        self.flag.store(true, Ordering::Release);
        self.raised = true;
    }

    /// Whether cancellation has already been requested.
    pub fn is_cancelled(&self) -> bool {
        self.flag.load(Ordering::Acquire)
    }

    /// Another read handle on the same signal.
    pub fn token(&self) -> (r: CancellationToken)
        ensures
            r.fixed() is None,
    {
        CancellationToken { signal: Signal::Shared(Arc::clone(&self.flag)) }
    }
}

} // verus!
