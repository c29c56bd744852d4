//! The uniform stage contract: every stage exposes `execute` and `unwind`
//! over the same input and output shapes, tagged by a stage id.

use vstd::prelude::*;

verus! {

/// The tag a stage writes its progress under.
#[derive(Clone, Copy, Debug, PartialEq, Eq)]
pub struct StageId(pub &'static str);

/// Input of a stage's forward execution.
#[derive(Clone, Copy, Debug)]
pub struct ExecInput {
    /// The previous stage in pipeline order, with its progress: the upper
    /// bound of the work available to this stage.
    pub previous_stage: Option<(StageId, u64)>,
    /// The last block number this stage committed, if it ever ran.
    pub stage_progress: Option<u64>,
}

impl ExecInput {
    /// The progress of the previous stage, zero when this stage is first in
    /// the pipeline.
    pub open spec fn previous_stage_progress_spec(&self) -> u64 {
        match self.previous_stage {
            Some((_, n)) => n,
            None => 0,
        }
    }

    /// The committed progress, zero when the stage never ran.
    pub open spec fn stage_progress_spec(&self) -> u64 {
        match self.stage_progress {
            Some(n) => n,
            None => 0,
        }
    }

    /// The progress of the previous stage, zero when this stage is first in
    /// the pipeline.
    pub fn previous_stage_progress(&self) -> (r: u64)
        ensures
            r == self.previous_stage_progress_spec(),
    {
        match self.previous_stage {
            Some((_, n)) => n,
            None => 0,
        }
    }
}

/// Output of a stage's forward execution.
#[derive(Clone, Copy, Debug, PartialEq, Eq, Structural)]
pub struct ExecOutput {
    /// The new committed progress.
    pub stage_progress: u64,
    /// Whether the stage believes it has caught up with the tip of its
    /// input.
    pub reached_tip: bool,
    /// `false` when the stage yielded at a commit threshold and asks to be
    /// re-entered immediately.
    pub done: bool,
}

/// Input of a stage's unwind.
#[derive(Clone, Copy, Debug)]
pub struct UnwindInput {
    /// Every row this stage wrote for a block number greater than this must
    /// be removed.
    pub unwind_to: u64,
}

/// Output of a stage's unwind.
#[derive(Clone, Copy, Debug, PartialEq, Eq, Structural)]
pub struct UnwindOutput {
    /// The progress after the unwind.
    pub stage_progress: u64,
}

} // verus!
