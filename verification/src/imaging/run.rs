//! The stages of writing an image, in the order they have to happen:
//! unmount, write, flush, read back. Each is reported as it starts, because
//! the pause between written and verified is minutes long on a real disk and
//! an unexplained pause looks like a hang.

use vstd::prelude::*;

use crate::jobs::progress::Progress;

verus! {

/// Which part of the operation is running.
#[derive(Debug, Clone, Copy, PartialEq, Eq, Structural)]
pub enum Stage {
    /// Unmounting the disk's volumes.
    Unmounting,
    /// Copying the image onto the disk.
    Writing,
    /// Waiting for the disk to admit it has the data.
    Flushing,
    /// Reading the disk back and comparing.
    Verifying,
}

/// The catalogue key of a stage's name.
pub open spec fn stage_label(s: Stage) -> Seq<char> {
    match s {
        Stage::Unmounting => "imaging.stage.unmounting"@,
        Stage::Writing => "imaging.stage.writing"@,
        Stage::Flushing => "imaging.stage.flushing"@,
        Stage::Verifying => "imaging.stage.verifying"@,
    }
}

impl Stage {
    /// The catalogue key of the stage's name.
    pub fn label_key(self) -> (r: &'static str)
        ensures
            r@ == stage_label(self),
    {
        match self {
            Stage::Unmounting => "imaging.stage.unmounting",
            Stage::Writing => "imaging.stage.writing",
            Stage::Flushing => "imaging.stage.flushing",
            Stage::Verifying => "imaging.stage.verifying",
        }
    }
}

/// What the caller is told as the work proceeds.
pub trait Watcher {
    /// A new stage has begun.
    fn stage(&mut self, stage: Stage);

    /// Progress within the current stage.
    fn progress(&mut self, progress: Progress);
}

/// A watcher that ignores everything.
pub struct Silent;

impl Watcher for Silent {
    fn stage(&mut self, stage: Stage) {
    }

    fn progress(&mut self, progress: Progress) {
    }
}

} // verus!
