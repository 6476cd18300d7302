//! How a plan is carried out: its steps in order, and none after one that
//! failed.
//!
//! The caller carries out the steps. It starts where [`first_step`] says and
//! after each step asks [`next_step`], with the outcome of that step, what
//! comes next.

use vstd::prelude::*;

verus! {

/// What comes next in carrying out a plan.
#[derive(Debug, Clone, Copy, PartialEq, Eq, Structural)]
pub enum Next {
    /// Carry out the step at this position.
    Run(usize),
    /// Every step has succeeded.
    Done,
    /// A step has failed; none of the steps after it is carried out.
    Abort,
}

/// What comes first in a plan of `steps` steps.
pub open spec fn first(steps: usize) -> Next {
    if steps > 0 {
        Next::Run(0)
    } else {
        Next::Done
    }
}

/// What comes after the step at `position` of a plan of `steps` steps,
/// which succeeded or not.
pub open spec fn after(steps: usize, position: usize, succeeded: bool) -> Next {
    if !succeeded {
        Next::Abort
    } else if position + 1 < steps {
        Next::Run((position + 1) as usize)
    } else {
        Next::Done
    }
}

/// Computes [`first`].
pub fn first_step(steps: usize) -> (r: Next)
    ensures
        r == first(steps),
{
    if steps > 0 {
        Next::Run(0)
    } else {
        Next::Done
    }
}

/// Computes [`after`].
pub fn next_step(steps: usize, position: usize, succeeded: bool) -> (r: Next)
    ensures
        r == after(steps, position, succeeded),
{
    if !succeeded {
        Next::Abort
    } else if position < steps && position + 1 < steps {
        Next::Run(position + 1)
    } else {
        Next::Done
    }
}

/// Where carrying out a plan of `steps` steps stands once the outcomes
/// `outcomes` of its first steps are known, one outcome for each step that
/// was carried out.
pub open spec fn standing(steps: usize, outcomes: Seq<bool>) -> Next
    decreases outcomes.len(),
{
    if outcomes.len() == 0 {
        first(steps)
    } else {
        match standing(steps, outcomes.drop_last()) {
            Next::Run(position) => after(steps, position, outcomes.last()),
            ended => ended,
        }
    }
}

/// The steps are carried out in order and to the end unless one fails: with
/// outcomes that are all successes and fewer than the steps, the step to
/// carry out next is the one after them; with as many as the steps, the plan
/// is done.
pub proof fn lemma_runs_in_order(steps: usize, outcomes: Seq<bool>)
    requires
        outcomes.len() <= steps,
        forall|i: int| 0 <= i < outcomes.len() ==> outcomes[i],
    ensures
        outcomes.len() < steps ==> standing(steps, outcomes) == Next::Run(outcomes.len() as usize),
        outcomes.len() == steps ==> standing(steps, outcomes) == Next::Done,
    decreases outcomes.len(),
{
    if outcomes.len() > 0 {
        lemma_runs_in_order(steps, outcomes.drop_last());
    }
}

/// Nothing is carried out after a failure: once a step has failed, the plan
/// stands at [`Next::Abort`], whatever is reported after it.
pub proof fn lemma_stops_at_failure(steps: usize, outcomes: Seq<bool>, failed: int)
    requires
        0 <= failed < outcomes.len(),
        failed < steps,
        forall|i: int| 0 <= i < failed ==> outcomes[i],
        !outcomes[failed],
    ensures
        standing(steps, outcomes) == Next::Abort,
    decreases outcomes.len(),
{
    let before = outcomes.drop_last();
    if failed == outcomes.len() - 1 {
        assert forall|i: int| 0 <= i < before.len() implies before[i] by {
            assert(before[i] == outcomes[i]);
        }
        lemma_runs_in_order(steps, before);
    } else {
        assert(before[failed] == outcomes[failed]);
        assert forall|i: int| 0 <= i < failed implies before[i] by {
            assert(before[i] == outcomes[i]);
        }
        lemma_stops_at_failure(steps, before, failed);
    }
}

} // verus!
