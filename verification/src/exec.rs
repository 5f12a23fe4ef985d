//! The scheduler's back half: stage-by-stage execution bookkeeping.
//!
//! The engine dispatches one stage's tasks at a time (the host runs them,
//! concurrently if it likes), then records the stage's outcomes. The first
//! failure halts the run: siblings of the failing stage finish and are
//! recorded, but no later stage is ever dispatched.

use vstd::prelude::*;

use crate::plan::{ExecutionPlan, PlanError};
use crate::task::TaskDescriptor;

verus! {

/// The result of one task execution.
#[derive(Debug)]
pub enum TaskOutcome {
    Success,
    Failure { cause: String },
}

impl TaskOutcome {
    /// True iff the task succeeded.
    pub open spec fn spec_is_success(&self) -> bool {
        matches!(self, TaskOutcome::Success)
    }

    /// True iff the task succeeded.
    pub fn is_success(&self) -> (r: bool)
        ensures
            r == self.spec_is_success(),
    {
        match self {
            TaskOutcome::Success => true,
            TaskOutcome::Failure { .. } => false,
        }
    }
}

/// Why one block's processing failed; surfaced to the caller, never
/// swallowed.
#[derive(Debug)]
pub enum BlockProcessingFailed {
    /// The configuration enables a task the era's registry does not know.
    UnknownTask(String),
    /// Plan construction rejected the selected set before any task ran.
    Plan(PlanError),
    /// A task's run failed; the block's transaction was rolled back.
    TaskExecutionError { task_name: String, cause: String },
}

/// The first failing task of one stage, as (task index, cause): outcomes
/// are read in stage order.
pub open spec fn first_failure(stage: Seq<usize>, outcomes: Seq<TaskOutcome>) -> Option<
    (usize, Seq<char>),
>
    decreases outcomes.len(),
{
    if outcomes.len() == 0 || stage.len() == 0 {
        None
    } else {
        match outcomes.first() {
            TaskOutcome::Failure { cause } => Some((stage.first(), cause@)),
            TaskOutcome::Success => first_failure(stage.drop_first(), outcomes.drop_first()),
        }
    }
}

/// Drives one block's execution plan: hands out the next stage to run,
/// takes its outcomes back, and halts at the first failure.
pub struct StageExecutor {
    stages: Vec<Vec<usize>>,
    next_stage: usize,
    failure: Option<(usize, String)>,
}

impl StageExecutor {
    /// The plan being driven.
    pub closed spec fn plan(&self) -> Seq<Seq<usize>> {
        self.stages.deep_view()
    }

    /// The index of the next stage to dispatch.
    pub closed spec fn cursor(&self) -> int {
        self.next_stage as int
    }

    /// The first failure recorded so far, as (task index, cause).
    pub closed spec fn failure_of(&self) -> Option<(usize, Seq<char>)> {
        match self.failure {
            Some((i, c)) => Some((i, c@)),
            None => None,
        }
    }

    pub open spec fn wf(&self) -> bool {
        0 <= self.cursor() <= self.plan().len()
    }

    /// A failure has been recorded: no further stage will be dispatched.
    pub open spec fn halted(&self) -> bool {
        self.failure_of() is Some
    }

    /// The run is over: every stage completed, or a failure halted it.
    pub open spec fn finished(&self) -> bool {
        self.halted() || self.cursor() == self.plan().len()
    }

    /// Starts driving a plan from its first stage.
    pub fn new(plan: ExecutionPlan) -> (r: StageExecutor)
        ensures
            r.plan() == plan@,
            r.cursor() == 0,
            !r.halted(),
            r.wf(),
    {
        StageExecutor { stages: plan.stages, next_stage: 0, failure: None }
    }

    /// The tasks to dispatch now, or `None` once the run is over. After a
    /// failure this is always `None`: later stages never run.
    pub fn current_stage(&self) -> (r: Option<&Vec<usize>>)
        requires
            self.wf(),
        ensures
            match r {
                Some(v) => !self.finished() && v@ == self.plan()[self.cursor()],
                None => self.finished(),
            },
    {
        if self.failure.is_some() {
            None
        } else if self.next_stage < self.stages.len() {
            Some(&self.stages[self.next_stage])
        } else {
            None
        }
    }

    /// Records one outcome per task of the current stage, in stage order,
    /// and advances past the stage. The stage's first failing task, if any,
    /// halts the run.
    pub fn complete_stage(&mut self, outcomes: &Vec<TaskOutcome>)
        requires
            old(self).wf(),
            !old(self).finished(),
            outcomes@.len() == old(self).plan()[old(self).cursor()].len(),
        ensures
            final(self).wf(),
            final(self).plan() == old(self).plan(),
            final(self).cursor() == old(self).cursor() + 1,
            final(self).failure_of() == first_failure(
                old(self).plan()[old(self).cursor()],
                outcomes@,
            ),
    {
        assert(self.next_stage < self.stages.len());
        let ghost stage_v = self.stages.deep_view()[self.next_stage as int];
        let stage = &self.stages[self.next_stage];
        proof {
            assert(stage_v.skip(0) =~= stage_v);
            assert(outcomes@.skip(0) =~= outcomes@);
        }
        let mut k: usize = 0;
        let mut found: Option<(usize, String)> = None;
        while k < stage.len()
            invariant
                stage@ == stage_v,
                k <= stage@.len(),
                outcomes@.len() == stage@.len(),
                match found {
                    Some((i, c)) => Some((i, c@)) == first_failure(stage_v, outcomes@),
                    None => first_failure(stage_v, outcomes@) == first_failure(
                        stage_v.skip(k as int),
                        outcomes@.skip(k as int),
                    ),
                },
            decreases stage@.len() - k,
        {
            if found.is_none() {
                match &outcomes[k] {
                    TaskOutcome::Failure { cause } => {
                        proof {
                            assert(stage_v.skip(k as int).first() == stage_v[k as int]);
                            assert(outcomes@.skip(k as int).first() == outcomes@[k as int]);
                        }
                        found = Some((stage[k], cause.clone()));
                    },
                    TaskOutcome::Success => {
                        proof {
                            assert(stage_v.skip(k as int).drop_first() =~= stage_v.skip(
                                k as int + 1,
                            ));
                            assert(outcomes@.skip(k as int).drop_first() =~= outcomes@.skip(
                                k as int + 1,
                            ));
                        }
                    },
                }
            }
            k = k + 1;
        }
        proof {
            if found is None {
                assert(stage_v.skip(stage_v.len() as int).len() == 0);
            }
        }
        self.failure = found;
        assert(self.next_stage < self.stages@.len());
        self.next_stage = self.next_stage + 1;
    }

    /// The aggregate outcome once the run is over: success only if every
    /// task of every stage succeeded; otherwise the first failure, named.
    pub fn result(&self, tasks: &Vec<TaskDescriptor>) -> (r: Result<(), BlockProcessingFailed>)
        requires
            self.wf(),
            self.finished(),
            match self.failure_of() {
                Some((i, _)) => i < tasks@.len(),
                None => true,
            },
        ensures
            match r {
                Ok(()) => !self.halted(),
                Err(BlockProcessingFailed::TaskExecutionError { task_name, cause }) => {
                    &&& self.halted()
                    &&& {
                        let f = self.failure_of()->Some_0;
                        task_name@ == tasks.deep_view()[f.0 as int].name && cause@ == f.1
                    }
                },
                Err(_) => false,
            },
    {
        match &self.failure {
            None => Ok(()),
            Some((i, c)) => Err(
                BlockProcessingFailed::TaskExecutionError {
                    task_name: tasks[*i].name.clone(),
                    cause: c.clone(),
                },
            ),
        }
    }
}

} // verus!
