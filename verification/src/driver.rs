use vstd::prelude::*;

use crate::budget::{WorkBudget, WORK_BUDGET};

verus! {

/// What a background driver has to do next.
#[derive(Clone, Copy, PartialEq, Eq, Structural, Debug)]
pub enum DriverStep {
    /// Poll the source and report the outcome.
    PollSource,
    /// Poll the running deadline and report the outcome.
    PollDeadline,
    /// Yield to the executor, then poll the source.
    Yield,
    /// Wait to be woken, then poll the source.
    Park,
    /// Stop: the operator has completed.
    Finish,
}

/// What a background driver has to do to its deadline first.
#[derive(Clone, Copy, PartialEq, Eq, Structural, Debug)]
pub enum Timer {
    /// Leave it as it is.
    Keep,
    /// Start a new one, in place of any earlier one.
    Start,
    /// Drop it.
    Stop,
}

/// What one event leaves to do: the deadline, the consumer to wake, the next step.
pub struct DriverTurn<W> {
    pub step: DriverStep,
    pub timer: Timer,
    pub wake: Option<W>,
}

/// The step after one more unit of work: the driver yields when its budget is
/// used up.
pub open spec fn step_after_work(spent: nat) -> DriverStep {
    if spent + 1 == WORK_BUDGET {
        DriverStep::Yield
    } else {
        DriverStep::PollSource
    }
}

/// The spent budget after one more unit of work.
pub open spec fn spent_after_work(spent: nat) -> nat {
    if spent + 1 == WORK_BUDGET {
        0
    } else {
        spent + 1
    }
}

/// Spends one unit of work.
pub(crate) fn work(budget: &mut WorkBudget) -> (step: DriverStep)
    requires
        old(budget).wf(),
    ensures
        final(budget).wf(),
        step == step_after_work(old(budget).spent()),
        final(budget).spent() == spent_after_work(old(budget).spent()),
{
    if budget.spend() {
        DriverStep::Yield
    } else {
        DriverStep::PollSource
    }
}

/// The spent budget after `n` units of work.
pub open spec fn spent_after(spent: nat, n: nat) -> nat
    decreases n,
{
    if n == 0 {
        spent
    } else {
        spent_after_work(spent_after(spent, (n - 1) as nat))
    }
}

/// A driver cannot monopolize its executor: among any [`WORK_BUDGET`] units of
/// work in a row there is one after which it yields.
pub proof fn law_driver_yields_within_budget(spent: nat)
    requires
        spent < WORK_BUDGET,
    ensures
        exists|n: nat|
            n < WORK_BUDGET && step_after_work(#[trigger] spent_after(spent, n)) == DriverStep::Yield,
{
    let n = (WORK_BUDGET - 1 - spent) as nat;
    lemma_spent_after(spent, n);
    assert(step_after_work(spent_after(spent, n)) == DriverStep::Yield);
}

proof fn lemma_spent_after(spent: nat, n: nat)
    requires
        spent + n < WORK_BUDGET,
    ensures
        spent_after(spent, n) == spent + n,
    decreases n,
{
    if n > 0 {
        lemma_spent_after(spent, (n - 1) as nat);
    }
}

/// Counting the work from the start: what is spent is what is left over after the whole
/// budgets, and the driver yields with the last unit of each of them.
pub proof fn lemma_whole_budgets(units: nat)
    ensures
        spent_after_work(units % (WORK_BUDGET as nat)) == (units + 1) % (WORK_BUDGET as nat),
        step_after_work(units % (WORK_BUDGET as nat)) == (if (units + 1) % (WORK_BUDGET as nat) == 0 {
            DriverStep::Yield
        } else {
            DriverStep::PollSource
        }),
{
}

} // verus!
