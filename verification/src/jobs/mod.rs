//! The job contract: the states a job can be in, how it reports progress,
//! and how it is cancelled. Execution lives with the subsystem that knows the
//! work.

pub mod cancel;
pub mod job;
pub mod progress;
pub mod state;

pub use cancel::{CancellationToken, Cancelled, Canceller};
pub use job::{Job, JobId, JobKind};
pub use progress::Progress;
pub use state::{JobState, TransitionError};
