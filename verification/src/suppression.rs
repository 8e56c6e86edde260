//! Suppression: a per-unit discrete Markov chain `Free → Suppressed → Pinned` driven by
//! near-miss volume and decaying over time. Near-misses step it up; time steps it down.

use vstd::prelude::*;

verus! {

/// A unit's suppression state.
#[derive(Clone, Copy, PartialEq, Eq, Debug, Structural)]
pub enum Suppression {
    /// Unsuppressed: full fire and movement.
    Free,
    /// Heads-down: outgoing fire is degraded; may still move.
    Suppressed,
    /// Pinned: cannot fire, cannot move.
    Pinned,
}

/// The number of the highest level, `Pinned`.
pub open spec fn top_level() -> int {
    2
}

impl Suppression {
    /// The state's position on the chain: `0` Free, `1` Suppressed, `2` Pinned.
    pub open spec fn level(self) -> int {
        match self {
            Suppression::Free => 0,
            Suppression::Suppressed => 1,
            Suppression::Pinned => 2,
        }
    }

    /// The state at a given level, clamped into the chain.
    pub open spec fn at_level(n: int) -> Suppression {
        if n <= 0 {
            Suppression::Free
        } else if n == 1 {
            Suppression::Suppressed
        } else {
            Suppression::Pinned
        }
    }

    /// The state after `n` near-miss steps up from `self`.
    pub open spec fn stepped_up(self, n: nat) -> Suppression {
        Suppression::at_level(self.level() + n)
    }

    /// The state after `n` recovery steps down from `self`.
    pub open spec fn stepped_down(self, n: nat) -> Suppression {
        Suppression::at_level(self.level() - n)
    }

    /// One level worse (saturating at `Pinned`).
    pub fn step_up(self) -> (r: Suppression)
        ensures
            r == Suppression::at_level(self.level() + 1),
            r.level() == if self.level() < top_level() { self.level() + 1 } else { top_level() },
    {
        match self {
            Suppression::Free => Suppression::Suppressed,
            Suppression::Suppressed | Suppression::Pinned => Suppression::Pinned,
        }
    }

    /// One level better (saturating at `Free`).
    pub fn step_down(self) -> (r: Suppression)
        ensures
            r == Suppression::at_level(self.level() - 1),
            r.level() == if self.level() > 0 { self.level() - 1 } else { 0 },
    {
        match self {
            Suppression::Pinned => Suppression::Suppressed,
            Suppression::Suppressed | Suppression::Free => Suppression::Free,
        }
    }

    /// Can this unit move? (False only when Pinned.)
    pub fn can_move(self) -> (r: bool)
        ensures
            r == (self != Suppression::Pinned),
            r == (self.level() < top_level()),
    {
        self != Suppression::Pinned
    }
}

impl Default for Suppression {
    /// A unit starts unsuppressed.
    fn default() -> (r: Suppression)
        ensures
            r == Suppression::Free,
    {
        Suppression::Free
    }
}

/// Every state sits at its own level: `at_level` undoes `level`.
pub proof fn law_each_state_sits_at_its_level(s: Suppression)
    ensures
        Suppression::at_level(s.level()) == s,
        0 <= s.level() <= top_level(),
{
}

/// Near misses never make a unit less suppressed, and time never makes it more:
/// a step up never lowers the level and a step down never raises it.
pub proof fn law_steps_are_monotone(s: Suppression)
    ensures
        Suppression::at_level(s.level() + 1).level() >= s.level(),
        Suppression::at_level(s.level() - 1).level() <= s.level(),
{
}

/// A step down undoes a step up, except from `Pinned`, where the step up saturated;
/// a step up undoes a step down, except from `Free`, where the step down saturated.
pub proof fn law_step_down_undoes_step_up(s: Suppression)
    ensures
        s != Suppression::Pinned ==> s.stepped_up(1).stepped_down(1) == s,
        s == Suppression::Pinned ==> s.stepped_up(1).stepped_down(1) == Suppression::Suppressed,
        s != Suppression::Free ==> s.stepped_down(1).stepped_up(1) == s,
        s == Suppression::Free ==> s.stepped_down(1).stepped_up(1) == Suppression::Suppressed,
{
}

/// `n` steps up in a row land on level `min(level + n, 2)`; two are enough to pin any
/// unit, and two steps down free any unit.
pub proof fn law_repeated_steps_saturate(s: Suppression, n: nat)
    ensures
        s.stepped_up(n).level() == if s.level() + n >= top_level() { top_level() } else {
            s.level() + n
        },
        s.stepped_down(n).level() == if s.level() - n <= 0 { 0 } else { s.level() - n },
        n >= 2 ==> s.stepped_up(n) == Suppression::Pinned,
        n >= 2 ==> s.stepped_down(n) == Suppression::Free,
{
}

/// Stepping up `a` times and then `b` times is the same as stepping up `a + b` times:
/// the chain is a saturating counter, so the order in which near misses arrive within
/// one burst does not matter.
pub proof fn law_steps_compose(s: Suppression, a: nat, b: nat)
    ensures
        s.stepped_up(a).stepped_up(b) == s.stepped_up(a + b),
        s.stepped_down(a).stepped_down(b) == s.stepped_down(a + b),
{
}

/// Movement is gated on exactly one state: a unit can move unless it is `Pinned`, so
/// one near miss never halts a free unit, and one recovery step frees a pinned one.
pub proof fn law_movement_gate(s: Suppression)
    ensures
        s == Suppression::Free ==> s.stepped_up(1) != Suppression::Pinned,
        s == Suppression::Pinned ==> s.stepped_down(1) != Suppression::Pinned,
{
}

} // verus!
