//! The pipeline executor's control: stages run in a fixed order, forward
//! progress is threaded between them, validation failures trigger a
//! pipeline-wide unwind, and transient errors retry the same stage. The
//! sleeping, the stage calls and the commits happen outside the library;
//! this module decides the executor's next move from each stage outcome.

use vstd::prelude::*;
use crate::error::StageError;
use crate::stage::ExecOutput;

verus! {

/// What the executor does next after a stage outcome.
#[derive(Clone, Copy, Debug, PartialEq, Eq, Structural)]
pub enum PipelineAction {
    /// Run the stage the executor now points at.
    Run,
    /// Run the same stage again after a short pause.
    Retry,
    /// Walk every stage in reverse order, unwinding to this block, then
    /// resume from the first stage.
    Unwind {
        /// The block to unwind to: one before the offending block.
        to: u64,
    },
    /// The whole pipeline has caught up with the tip; idle until new
    /// work arrives.
    Idle,
    /// A non-recoverable failure: surface it to the operator.
    Halt,
}

/// The executor's position: which stage of the ordered list runs next.
pub struct PipelineState {
    /// Index of the current stage.
    pub current: usize,
    /// Number of stages in pipeline order.
    pub num_stages: usize,
}

impl PipelineState {
    /// The position is within the stage list.
    pub open spec fn wf(&self) -> bool {
        self.num_stages >= 1 && self.current < self.num_stages
    }

    /// An executor at the first of `num_stages` stages.
    pub fn new(num_stages: usize) -> (s: Self)
        requires
            num_stages >= 1,
        ensures
            s.wf(),
            s.current == 0,
            s.num_stages == num_stages,
    {
        PipelineState { current: 0, num_stages }
    }

    /// Decide the executor's next move from the outcome of running the
    /// current stage: a yield re-enters it, completion advances (wrapping
    /// back to the first stage after the last, idling once the tip is
    /// reached), transient failures retry, a validation failure unwinds
    /// to just before the offending block, and everything else halts.
    pub fn step(&mut self, outcome: &Result<ExecOutput, StageError>) -> (a: PipelineAction)
        requires
            old(self).wf(),
        ensures
            final(self).wf(),
            final(self).num_stages == old(self).num_stages,
            match outcome {
                Ok(out) => {
                    if !out.done {
                        final(self).current == old(self).current && a == PipelineAction::Run
                    } else if old(self).current + 1 < old(self).num_stages {
                        final(self).current == old(self).current + 1 && a == PipelineAction::Run
                    } else {
                        final(self).current == 0 && a == (if out.reached_tip {
                            PipelineAction::Idle
                        } else {
                            PipelineAction::Run
                        })
                    }
                },
                Err(e) => match e {
                    StageError::Recoverable(_) => final(self).current == old(self).current && a
                        == PipelineAction::Retry,
                    StageError::Download { .. } => final(self).current == old(self).current && a
                        == PipelineAction::Retry,
                    StageError::Validation { block, .. } => final(self).current == 0 && a == (
                    PipelineAction::Unwind {
                        to: if *block == 0 {
                            0
                        } else {
                            (*block - 1) as u64
                        },
                    }),
                    _ => final(self).current == old(self).current && a == PipelineAction::Halt,
                },
            },
    {
        match outcome {
            Ok(out) => {
                if !out.done {
                    // The stage yielded at a commit threshold: re-enter
                    // immediately.
                    PipelineAction::Run
                } else if self.current + 1 < self.num_stages {
                    self.current = self.current + 1;
                    PipelineAction::Run
                } else {
                    self.current = 0;
                    if out.reached_tip {
                        PipelineAction::Idle
                    } else {
                        PipelineAction::Run
                    }
                }
            },
            Err(e) => match e {
                StageError::Recoverable(_) => PipelineAction::Retry,
                StageError::Download { .. } => PipelineAction::Retry,
                StageError::Validation { block, .. } => {
                    self.current = 0;
                    let to: u64 = if *block == 0 {
                        0
                    } else {
                        *block - 1
                    };
                    PipelineAction::Unwind { to }
                },
                StageError::StageProgress(_) => PipelineAction::Halt,
                StageError::DatabaseIntegrity(_) => PipelineAction::Halt,
                StageError::Database(_) => PipelineAction::Halt,
                StageError::Fatal(_) => PipelineAction::Halt,
            },
        }
    }
}

} // verus!
