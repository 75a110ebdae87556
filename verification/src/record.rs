//! How a trial ended, for the record of a run.
use vstd::prelude::*;

verus! {

/// Every agent is informed (a network with no agents never is).
pub open spec fn all_informed(n_informed: int, n_agents: int) -> bool {
    n_agents > 0 && n_informed >= n_agents
}

/// Why a trial's diffusion stopped, and whether the trial is right-censored.
/// The mechanism stops when a round informs nobody or when everybody is
/// informed; failing both, the run goes on to its round budget. A trial
/// that spent its budget with agents still uninformed is censored.
pub fn outcome_of(n_informed: usize, n_agents: usize, cascade_rounds: usize, max_iterations: usize) -> (r: (
    &'static str,
    bool,
))
    ensures
        all_informed(n_informed as int, n_agents as int) ==> r.0@ == "all_informed"@ && !r.1,
        !all_informed(n_informed as int, n_agents as int) && cascade_rounds >= max_iterations ==> r.0@
            == "budget_exhausted"@ && r.1,
        !all_informed(n_informed as int, n_agents as int) && cascade_rounds < max_iterations ==> r.0@ == "saturated"@
            && !r.1,
{
    if n_agents > 0 && n_informed >= n_agents {
        ("all_informed", false)
    } else if cascade_rounds >= max_iterations {
        ("budget_exhausted", true)
    } else {
        ("saturated", false)
    }
}

} // verus!
