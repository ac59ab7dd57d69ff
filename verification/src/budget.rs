use vstd::prelude::*;

verus! {

/// How many items one executor turn may handle before it yields.
pub const WORK_BUDGET: usize = 64;

/// Counts the work of a background driver between two cooperative yields.
pub struct WorkBudget {
    work: usize,
}

impl WorkBudget {
    /// The units of work done since the last yield.
    pub closed spec fn spent(&self) -> nat {
        self.work as nat
    }

    /// A driver never keeps a whole budget unspent and unyielded.
    pub open spec fn wf(&self) -> bool {
        self.spent() < WORK_BUDGET
    }

    /// A budget of which nothing is spent.
    pub fn new() -> (budget: Self)
        ensures
            budget.wf(),
            budget.spent() == 0,
    {
        WorkBudget { work: 0 }
    }

    /// Spends one unit. `true` means that the budget is used up: the driver has
    /// to yield, and a new budget begins.
    pub fn spend(&mut self) -> (exhausted: bool)
        requires
            old(self).wf(),
        ensures
            final(self).wf(),
            exhausted == (old(self).spent() + 1 == WORK_BUDGET),
            final(self).spent() == if exhausted {
                0
            } else {
                old(self).spent() + 1
            },
    {
        self.work = self.work + 1;
        if self.work == WORK_BUDGET {
            self.work = 0;
            true
        } else {
            false
        }
    }
}

} // verus!
