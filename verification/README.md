# sim_core

The decision logic of a fires-and-manoeuvre simulation, written in Verus with its
behaviour stated as contracts and proved.

- `src/` is the verified library: the suppression chain, target-priority doctrine and
  its validation, the greedy and independent weapon–target assignment rules, the
  fire-control bookkeeping around an assignment (slot layout, committed counts, orders
  and locks, who falls through to the next tier), air-defence channel and magazine
  bookkeeping, the line-of-sight memo, and the enums the scenario schema is built from.
  Each module states its laws as public proof functions.
- `app/` is the engine around it: terrain generation, line of sight, the sensing,
  fires and air-defence models, the optimal (Kuhn–Munkres) assignment, scenario loading,
  and the stepping simulation. It computes in floating point, draws random numbers and
  reads files, and calls the library for every integer rule.
- `tests/` exercises the library on concrete values.
