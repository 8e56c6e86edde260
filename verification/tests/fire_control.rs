use sim_core::allocation::greedy;
use sim_core::doctrine::Order;
use sim_core::events::FireTarget;
use sim_core::state::Side;
use sim_core::fire_control::{
    air_columns, channel_rows, commitments, enemy_targets, in_tier, named_fire_target, ordered_engagements, pairs_from_slots,
    position_of, resolve_orders, slot_layout, slots_taken, without_chosen, without_used,
};

fn ids(v: &[&str]) -> Vec<String> {
    v.iter().map(|s| s.to_string()).collect()
}

fn order(shooter: &str, target: &str) -> Order {
    Order { shooter: shooter.to_string(), target: target.to_string() }
}

#[test]
fn slots_run_per_target_and_continue_the_committed_count() {
    let (target, rank) = slot_layout(&[0, 2], 3);
    assert_eq!(target, vec![0, 0, 0, 1, 1, 1]);
    assert_eq!(rank, vec![0, 1, 2, 2, 3, 4]);
    let (target, rank) = slot_layout(&[5, 5], 0);
    assert!(target.is_empty() && rank.is_empty());
    let (target, rank) = slot_layout(&[], 4);
    assert!(target.is_empty() && rank.is_empty());
}

#[test]
fn slots_taken_counts_locks_and_orders_per_target() {
    let targets = [FireTarget::Unit(3), FireTarget::AirDefence(0), FireTarget::C2(1)];
    let assigned = [
        (0, FireTarget::Unit(3)),
        (1, FireTarget::C2(1)),
        (2, FireTarget::Unit(3)),
        (5, FireTarget::Unit(9)),
    ];
    assert_eq!(slots_taken(&targets, &assigned), vec![2, 0, 1]);
    assert_eq!(slots_taken(&targets, &[]), vec![0, 0, 0]);
}

#[test]
fn a_solved_assignment_reads_back_as_shooter_target_pairs() {
    let shooters = [4, 7, 9];
    let targets = [FireTarget::Unit(1), FireTarget::C2(0)];
    let slot_target = [0, 0, 1, 1];
    let pairs = pairs_from_slots(&shooters, &targets, &slot_target, &[Some(3), None, Some(1)]);
    assert_eq!(pairs, vec![(4, FireTarget::C2(0)), (9, FireTarget::Unit(1))]);
}

#[test]
fn assigned_shooters_do_not_fall_through() {
    let chosen = [(7, FireTarget::Unit(0)), (2, FireTarget::C2(1))];
    assert_eq!(without_chosen(&[1, 2, 3, 7, 8], &chosen), vec![1, 3, 8]);
    assert_eq!(without_chosen(&[1, 2], &[]), vec![1, 2]);
}

#[test]
fn consumed_rows_are_dropped_by_index() {
    assert_eq!(without_used(&[10, 10, 11, 12], &[1, 3]), vec![10, 11]);
    assert_eq!(without_used(&[10, 11], &[5]), vec![10, 11]);
}

#[test]
fn each_free_channel_is_a_row() {
    assert_eq!(channel_rows(&[3, 5, 8], &[2, 0, 1]), vec![3, 3, 8]);
    assert!(channel_rows(&[], &[]).is_empty());
}

#[test]
fn columns_are_live_reachable_airframes_in_order_once() {
    let engageable = vec![vec![false, true, false, true], vec![true, true]];
    let alive = [true, true, true, false];
    // airframe 3 is reachable but dead; 2 is alive but nobody reaches it
    assert_eq!(air_columns(&engageable, &alive), vec![0, 1]);
    assert!(air_columns(&[], &alive).is_empty());
}

#[test]
fn ids_resolve_units_then_batteries_then_posts() {
    let units = ids(&["alpha", "bravo"]);
    let batteries = ids(&["sam", "bravo"]);
    let posts = ids(&["hq"]);
    assert_eq!(position_of(&units, "bravo"), Some(1));
    assert_eq!(position_of(&units, "sam"), None);
    assert_eq!(named_fire_target(&units, &batteries, &posts, "bravo"), Some(FireTarget::Unit(1)));
    assert_eq!(named_fire_target(&units, &batteries, &posts, "sam"), Some(FireTarget::AirDefence(0)));
    assert_eq!(named_fire_target(&units, &batteries, &posts, "hq"), Some(FireTarget::C2(0)));
    assert_eq!(named_fire_target(&units, &batteries, &posts, "nobody"), None);
}

#[test]
fn orders_resolve_against_the_live_shooters() {
    let units = ids(&["gun1", "gun2", "tank"]);
    let orders = [order("gun2", "tank"), order("gun1", "ghost"), order("tank", "gun1")];
    // only units 0 and 1 are live shooters this epoch
    let resolved = resolve_orders(&orders, &[0, 1], &ids(&["gun1", "gun2"]), &units, &[], &[]);
    assert_eq!(resolved, vec![Some((1, FireTarget::Unit(2))), None, None]);
}

#[test]
fn the_first_standing_order_for_a_shooter_wins() {
    let resolved = [
        Some((1, FireTarget::Unit(2))),
        Some((1, FireTarget::Unit(3))),
        Some((4, FireTarget::C2(0))),
        Some((4, FireTarget::Unit(5))),
        None,
    ];
    // order 2 is out of reach this epoch, so shooter 4 takes its later order
    let out = ordered_engagements(&resolved, &[true, true, false, true, true]);
    assert_eq!(out, vec![(1, FireTarget::Unit(2)), (4, FireTarget::Unit(5))]);
}

#[test]
fn a_shooter_that_can_reach_a_target_is_never_left_idle() {
    // Three shooters, two targets, one slot per shooter on each target. Shooter 2 can
    // only reach target 0, which both others value most.
    let (slot_target, _) = slot_layout(&[0, 0], 3);
    let row = |q: [Option<u64>; 2]| -> Vec<Option<u64>> {
        slot_target.iter().map(|&t| q[t]).collect()
    };
    let payoff = vec![
        row([Some(100), Some(10)]),
        row([Some(90), Some(20)]),
        row([Some(50), None]),
    ];
    let a = greedy(&payoff);
    assert!(a.iter().all(|s| s.is_some()), "a reachable shooter was left idle: {a:?}");
    assert_eq!(slot_target[a[2].unwrap()], 0);
}

#[test]
fn enemy_targets_list_units_then_batteries_then_posts() {
    let units = [(Side::Red, true), (Side::Blue, true), (Side::Red, false), (Side::Red, true)];
    let batteries = [(Side::Red, true)];
    let posts = [(Side::Blue, true), (Side::Red, true)];
    assert_eq!(
        enemy_targets(&units, &batteries, &posts, Side::Blue),
        vec![
            FireTarget::Unit(0),
            FireTarget::Unit(3),
            FireTarget::AirDefence(0),
            FireTarget::C2(1),
        ]
    );
    assert_eq!(enemy_targets(&units, &[], &[], Side::Red), vec![FireTarget::Unit(1)]);
}

#[test]
fn orders_outrank_locks_and_the_rest_are_left_for_the_assignment() {
    let shooters = [0, 1, 2, 3];
    let ordered = [(1, FireTarget::Unit(9))];
    // shooter 1 is locked too, but its order wins; shooter 2's lock is no longer
    // reachable; shooter 3 keeps its lock
    let locks = [None, Some(FireTarget::Unit(7)), Some(FireTarget::Unit(8)), Some(FireTarget::C2(0))];
    let lock_ok = [false, true, false, true];
    let (assigned, free) = commitments(&shooters, &ordered, &locks, &lock_ok);
    assert_eq!(assigned, vec![(1, FireTarget::Unit(9)), (3, FireTarget::C2(0))]);
    assert_eq!(free, vec![0, 2]);
}

#[test]
fn a_tier_slice_keeps_target_order_and_counts() {
    let targets = [FireTarget::Unit(0), FireTarget::Unit(1), FireTarget::C2(0), FireTarget::AirDefence(2)];
    let tiers = [1, 0, 1, 2];
    let taken = [3, 0, 1, 0];
    assert_eq!(in_tier(&targets, &tiers, &taken, 1), (vec![FireTarget::Unit(0), FireTarget::C2(0)], vec![3, 1]));
    assert_eq!(in_tier(&targets, &tiers, &taken, 5), (vec![], vec![]));
}
