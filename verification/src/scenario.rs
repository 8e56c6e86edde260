//! The scenario schema's discrete choices and their defaults.

use vstd::prelude::*;
use crate::allocation::Solver;

verus! {

/// Which allocation solver a scenario asks for.
#[derive(Clone, Copy, PartialEq, Eq, Debug, Structural)]
pub enum AllocationChoice {
    /// Kuhn–Munkres: the side-wide optimum.
    Optimal,
    /// Repeatedly take the best remaining pairing.
    Greedy,
    /// Each shooter picks for itself, ignoring the rest of the side.
    Independent,
}

impl Default for AllocationChoice {
    /// The side-wide optimum is the default.
    fn default() -> (r: AllocationChoice)
        ensures
            r == AllocationChoice::Optimal,
    {
        AllocationChoice::Optimal
    }
}

/// The solver each scenario choice stands for.
pub open spec fn solver_for(c: AllocationChoice) -> Solver {
    match c {
        AllocationChoice::Optimal => Solver::Optimal,
        AllocationChoice::Greedy => Solver::Greedy,
        AllocationChoice::Independent => Solver::Independent,
    }
}

impl From<AllocationChoice> for Solver {
    fn from(c: AllocationChoice) -> (r: Solver) {
        match c {
            AllocationChoice::Optimal => Solver::Optimal,
            AllocationChoice::Greedy => Solver::Greedy,
            AllocationChoice::Independent => Solver::Independent,
        }
    }
}

impl vstd::std_specs::convert::FromSpecImpl<AllocationChoice> for Solver {
    open spec fn obeys_from_spec() -> bool {
        true
    }

    open spec fn from_spec(c: AllocationChoice) -> Solver {
        solver_for(c)
    }
}

/// Most ground shooters that may be assigned to one target in an epoch.
pub fn default_max_shooters_per_target() -> (r: u32)
    ensures
        r == 3,
{
    3
}

/// Most air-defence batteries that may be assigned to one airframe.
pub fn default_max_batteries_per_air_target() -> (r: u32)
    ensures
        r == 2,
{
    2
}

/// Steerable sensors keep the facing a scenario gives them unless tasking is asked for.
pub fn default_sensor_tasking() -> (r: bool)
    ensures
        !r,
{
    false
}

/// Edge length of the coarse belief grid, in cells.
pub fn default_belief_cells() -> (r: usize)
    ensures
        r == 48,
{
    48
}

/// A battery uses its own sensor unless told otherwise.
pub fn default_self_cue() -> (r: bool)
    ensures
        r,
{
    true
}

/// Every scenario choice maps to the solver of the same name, and different choices to
/// different solvers.
pub proof fn law_choice_names_its_solver(a: AllocationChoice, b: AllocationChoice)
    ensures
        a != b ==> solver_for(a) != solver_for(b),
        solver_for(AllocationChoice::Optimal) == Solver::Optimal,
{
}

} // verus!
