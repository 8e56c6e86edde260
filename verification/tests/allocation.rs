use sim_core::allocation::{dimensions, greedy, independent, Solver};
use sim_core::scenario::AllocationChoice;

const INELIGIBLE: f64 = -1.0e18;

/// An order key for a payoff: `None` for an ineligible pairing, otherwise a `u64` that
/// orders exactly as the payoffs do.
fn key(p: f64) -> Option<u64> {
    if p > INELIGIBLE / 2.0 {
        let p = if p == 0.0 { 0.0 } else { p };
        let b = p.to_bits();
        Some(if b >> 63 == 1 { !b } else { b | (1 << 63) })
    } else {
        None
    }
}

fn keys(p: &[Vec<f64>]) -> Vec<Vec<Option<u64>>> {
    p.iter().map(|row| row.iter().map(|&x| key(x)).collect()).collect()
}

fn total(p: &[Vec<f64>], a: &[Option<usize>]) -> f64 {
    a.iter()
        .enumerate()
        .filter_map(|(i, s)| s.map(|j| p[i][j]))
        .filter(|x| *x > INELIGIBLE / 2.0)
        .sum()
}

/// The same small deterministic pseudo-random matrices the solver study uses.
fn matrix(seed: u64, n: usize, m: usize, ineligible_every: u64) -> Vec<Vec<f64>> {
    let mut s = seed.wrapping_mul(6_364_136_223_846_793_005).wrapping_add(1);
    let mut next = move || {
        s = s
            .wrapping_mul(6_364_136_223_846_793_005)
            .wrapping_add(1_442_695_040_888_963_407);
        (s >> 33) as f64 / f64::from(u32::MAX >> 1)
    };
    (0..n)
        .map(|_| {
            (0..m)
                .map(|_| {
                    let x = next();
                    if ineligible_every > 0 && ((x * 100.0) as u64) % ineligible_every == 0 {
                        INELIGIBLE
                    } else {
                        x * 10.0
                    }
                })
                .collect()
        })
        .collect()
}

#[test]
fn greedy_and_independent_leave_a_fully_ineligible_row_idle() {
    let p = vec![vec![INELIGIBLE, INELIGIBLE], vec![1.0, 2.0]];
    for a in [greedy(&keys(&p)), independent(&keys(&p))] {
        assert_eq!(a[0], None, "assigned an impossible shooter");
        assert_eq!(a[1], Some(1), "missed the best slot");
    }
}

#[test]
fn greedy_is_injective_and_eligible() {
    for seed in 0..40u64 {
        let p = matrix(seed, 5, 7, 4);
        let a = greedy(&keys(&p));
        let mut seen = [false; 7];
        for (i, slot) in a.iter().enumerate() {
            let Some(j) = slot else { continue };
            assert!(!seen[*j], "slot {j} used twice");
            seen[*j] = true;
            assert!(p[i][*j] > INELIGIBLE / 2.0, "chose an ineligible pairing");
        }
    }
}

#[test]
fn greedy_grabs_the_best_cell_and_can_strand_the_rest() {
    // The classic trap: greedy grabs the 9 and strands the rest.
    let p = vec![vec![9.0, 8.0], vec![8.0, 0.0]];
    let a = greedy(&keys(&p));
    assert_eq!(a, vec![Some(0), Some(1)]);
    assert!((total(&p, &a) - 9.0).abs() < 1e-9);
}

#[test]
fn greedy_breaks_ties_on_the_lower_shooter_then_slot() {
    let p = vec![vec![1.0, 5.0, 5.0], vec![5.0, 5.0, 1.0]];
    assert_eq!(greedy(&keys(&p)), vec![Some(1), Some(0)]);
}

#[test]
fn greedy_leaves_nothing_allowed_on_the_table() {
    for seed in 0..40u64 {
        for (n, m) in [(3, 3), (4, 6), (6, 4), (2, 9)] {
            let p = matrix(seed, n, m, 5);
            let a = greedy(&keys(&p));
            for i in 0..n {
                if a[i].is_some() {
                    continue;
                }
                for j in 0..m {
                    if a.iter().any(|s| *s == Some(j)) {
                        continue;
                    }
                    assert!(p[i][j] <= INELIGIBLE / 2.0, "seed {seed}: idle shooter {i} could take {j}");
                }
            }
        }
    }
}

#[test]
fn independent_takes_each_rows_first_best() {
    let p = vec![vec![3.0, 7.0, 7.0], vec![7.0, 2.0, INELIGIBLE], vec![0.0, 0.0, 0.0]];
    // Two shooters may pile onto the same slot here.
    assert_eq!(independent(&keys(&p)), vec![Some(1), Some(0), Some(0)]);
}

#[test]
fn greedy_empty_inputs_do_not_panic() {
    assert!(greedy(&[]).is_empty());
    assert!(independent(&[]).is_empty());
    let no_slots: Vec<Vec<Option<u64>>> = vec![vec![], vec![]];
    assert_eq!(greedy(&no_slots), vec![None, None]);
}

#[test]
fn a_ragged_matrix_is_read_as_its_narrowest_row() {
    let p = vec![vec![Some(1), Some(2), Some(3)], vec![Some(4)], vec![Some(5), Some(6)]];
    assert_eq!(dimensions(&p), (3, 1));
    assert_eq!(dimensions(&[]), (0, 0));
    // Only slot 0 exists for greedy, and the best holder of it is shooter 2.
    assert_eq!(greedy(&p), vec![None, None, Some(0)]);
}

#[test]
fn each_scenario_choice_names_its_solver() {
    assert_eq!(Solver::from(AllocationChoice::Optimal), Solver::Optimal);
    assert_eq!(Solver::from(AllocationChoice::Greedy), Solver::Greedy);
    assert_eq!(Solver::from(AllocationChoice::Independent), Solver::Independent);
    assert_eq!(AllocationChoice::default(), AllocationChoice::Optimal);
    assert_eq!(Solver::default(), Solver::Optimal);
}
