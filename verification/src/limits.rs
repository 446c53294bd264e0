//! How long a config or a handler may run.

use vstd::prelude::*;

verus! {

/// Check the instruction budget every HOOK_EVERY instructions.
/// MAX_TICKS allows roughly ten million instructions per call.
pub const HOOK_EVERY: u32 = 100_000;

pub const MAX_TICKS: u64 = 100;

/// Lua heap limit, including the interpreter and loaded rules.
pub const MEMORY_LIMIT: usize = 64 * 1024 * 1024;

/// What a call that is out of instructions fails with.
pub const OVER_BUDGET: &'static str = "ran past the instruction budget - an endless loop?";

/// How much of the instruction budget has been used. A new budget is handed
/// out before the config is run and before each handler: a slow rule must not
/// exhaust the next one's.
#[derive(Clone, Copy, PartialEq, Eq, Structural, Debug)]
pub struct Budget {
    ticks: u64,
}

impl Budget {
    /// How often the hook has run.
    pub closed spec fn used(&self) -> nat {
        self.ticks as nat
    }

    pub fn new() -> (r: Self)
        ensures
            r.used() == 0,
    {
        Budget { ticks: 0 }
    }

    /// Count one run of the hook, which fails once the budget is overdrawn.
    pub fn spend(&mut self) -> (r: Result<(), String>)
        ensures
            final(self).used() == if old(self).used() < u64::MAX {
                old(self).used() + 1
            } else {
                old(self).used()
            },
            r is Ok <==> old(self).used() < MAX_TICKS,
            r matches Err(message) ==> message@ == OVER_BUDGET@,
    {
        if self.ticks < u64::MAX {
            self.ticks = self.ticks + 1;
        }
        if self.ticks > MAX_TICKS {
            Err(OVER_BUDGET.to_string())
        } else {
            Ok(())
        }
    }
}

/// What is left of a budget after one run of the hook. A state without a budget
/// has nothing to spend from.
pub fn charge(held: Option<Budget>) -> (r: Result<Budget, String>)
    ensures
        match held {
            Some(budget) if budget.used() < MAX_TICKS => r matches Ok(left) && left.used()
                == budget.used() + 1,
            _ => r matches Err(message) && message@ == OVER_BUDGET@,
        },
{
    match held {
        Some(budget) => {
            let mut left = budget;
            match left.spend() {
                Ok(_) => Ok(left),
                Err(message) => Err(message),
            }
        },
        None => Err(OVER_BUDGET.to_string()),
    }
}

/// A call may run for ten million instructions, which are counted in steps of a
/// hundred thousand, and what runs past them is told so.
pub proof fn law_a_call_has_ten_million_instructions()
    ensures
        MAX_TICKS * HOOK_EVERY == 10_000_000,
        HOOK_EVERY == 100_000,
        OVER_BUDGET@ == "ran past the instruction budget - an endless loop?"@,
{
}

/// A new budget allows a hundred runs of the hook, and the next one fails: from the
/// budgets before and after each run, counted from zero.
pub proof fn law_a_budget_lasts_for_a_hundred_runs(
    budgets: Seq<Budget>,
    spent: Seq<Result<Budget, String>>,
    i: int,
)
    requires
        budgets.len() == spent.len(),
        budgets.len() > 0,
        budgets[0].used() == 0,
        forall|k: int|
            0 <= k < spent.len() ==> call_ensures(
                charge,
                (Some(budgets[k]),),
                #[trigger] spent[k],
            ),
        forall|k: int|
            0 < k < spent.len() ==> #[trigger] spent[k - 1] == Ok::<Budget, String>(budgets[k]),
        0 <= i < spent.len(),
    ensures
        budgets[i].used() == i,
        spent[i] is Ok <==> i < 100,
        i <= 100,
    decreases i,
{
    assert(call_ensures(charge, (Some(budgets[i]),), spent[i]));
    if i > 0 {
        law_a_budget_lasts_for_a_hundred_runs(budgets, spent, i - 1);
        assert(spent[i - 1] == Ok::<Budget, String>(budgets[i]));
    }
}

} // verus!
