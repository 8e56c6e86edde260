use sim_core::air_defence::{own_sensor_seen, Engagement, EngagementBook};
use std::collections::BTreeMap;

#[test]
fn a_zero_magazine_is_unlimited() {
    let book: EngagementBook<f64> = EngagementBook::new(1, 0);
    assert_eq!(book.magazine_left, u32::MAX);
    assert!(book.engagements.is_empty());
    let book: EngagementBook<f64> = EngagementBook::new(2, 3);
    assert_eq!(book.magazine_left, 3);
    assert_eq!(book.channels, 2);
}

#[test]
fn channels_cap_concurrency_and_the_magazine_caps_commitments() {
    let mut book: EngagementBook<f64> = EngagementBook::new(2, 3);
    assert!(book.has_capacity());
    book.open(0, None);
    book.open(1, None);
    assert_eq!(book.engagements.len(), 2);
    assert!(!book.has_capacity(), "a third engagement must wait for a free channel");
    // target 1 left the envelope
    book.drop_engagements(&[true, false]);
    assert_eq!(book.engagements, vec![Engagement { target: 0, resolves_at_s: None }]);
    assert!(book.has_capacity());
    book.open(2, None);
    assert_eq!(book.magazine_left, 0, "3 commitments empties a 3-round magazine");
    book.drop_engagements(&[]);
    assert!(book.engagements.is_empty());
    assert!(!book.has_capacity(), "an empty magazine cannot engage");
    // Opening past an empty magazine does not wrap.
    book.open(3, None);
    assert_eq!(book.magazine_left, 0);
}

#[test]
fn an_unlimited_magazine_never_runs_dry() {
    let mut book: EngagementBook<f64> = EngagementBook::new(1, 0);
    for i in 0..1000 {
        if book.has_capacity() {
            book.open(i, None);
            book.drop_engagements(&[]);
        }
    }
    assert!(book.has_capacity());
    assert_eq!(book.magazine_left, u32::MAX - 1000);
}

#[test]
fn engaging_reports_open_targets_only() {
    let mut book: EngagementBook<f64> = EngagementBook::new(3, 10);
    assert!(!book.engaging(4));
    book.open(4, Some(12.5));
    book.open(7, None);
    assert!(book.engaging(4));
    assert!(book.engaging(7));
    assert!(!book.engaging(5));
    assert_eq!(book.engagements[0].resolves_at_s, Some(12.5));
}

#[test]
fn a_target_beyond_the_table_is_dropped() {
    let mut book: EngagementBook<f64> = EngagementBook::new(3, 10);
    book.open(0, None);
    book.open(5, None);
    book.open(1, None);
    book.drop_engagements(&[true, true]);
    let targets: Vec<usize> = book.engagements.iter().map(|e| e.target).collect();
    assert_eq!(targets, vec![0, 1]);
    assert_eq!(book.magazine_left, 7);
}

#[test]
fn resolved_engagements_free_their_channels_in_order() {
    let mut book: EngagementBook<f64> = EngagementBook::new(4, 10);
    book.open(3, Some(1.0));
    book.open(8, Some(2.0));
    book.open(9, Some(3.0));
    book.remove_resolved(&[false, true, false]);
    let targets: Vec<usize> = book.engagements.iter().map(|e| e.target).collect();
    assert_eq!(targets, vec![3, 9]);
    assert_eq!(book.magazine_left, 7);
    book.remove_resolved(&[true, true]);
    assert!(book.engagements.is_empty());
}

#[test]
fn free_rows_is_capped_by_the_magazine() {
    let mut book: EngagementBook<f64> = EngagementBook::new(4, 2);
    assert_eq!(book.free_rows(), 2);
    book.open(0, None);
    // one channel used, one round left: a one-round magazine caps nothing below one
    assert_eq!(book.free_rows(), 1);
    let mut wide: EngagementBook<f64> = EngagementBook::new(4, 0);
    assert_eq!(wide.free_rows(), 4);
    wide.open(0, None);
    wide.open(1, None);
    wide.open(2, None);
    wide.open(3, None);
    assert_eq!(wide.free_rows(), 0);
    let empty: EngagementBook<f64> = EngagementBook::new(0, 5);
    assert_eq!(empty.free_rows(), 0);
}

#[test]
fn a_lone_battery_engages_best_first_until_it_runs_out_of_channels() {
    let mut book: EngagementBook<f64> = EngagementBook::new(2, 10);
    book.open(4, None);
    // airframe 1 is dead, 4 is already engaged, 2 takes the last channel, 0 never
    // gets a look
    let alive = [true, false, true, true, true];
    book.open_in_order(true, &[1, 4, 2, 0], &[Some(1.0), Some(2.0), Some(3.0), Some(4.0)], &alive);
    assert_eq!(
        book.engagements,
        vec![
            Engagement { target: 4, resolves_at_s: None },
            Engagement { target: 2, resolves_at_s: Some(3.0) },
        ]
    );
    assert_eq!(book.magazine_left, 8);
}

#[test]
fn a_reloading_battery_opens_nothing() {
    let mut book: EngagementBook<f64> = EngagementBook::new(3, 10);
    book.open_in_order(false, &[0, 1], &[None, None], &[true, true]);
    assert!(book.engagements.is_empty());
    assert_eq!(book.magazine_left, 10);
}

#[test]
fn an_empty_magazine_ends_the_pass() {
    let mut book: EngagementBook<f64> = EngagementBook::new(3, 1);
    book.open_in_order(true, &[2, 0, 1], &[None, None, None], &[true, true, true]);
    let targets: Vec<usize> = book.engagements.iter().map(|e| e.target).collect();
    assert_eq!(targets, vec![2]);
    assert_eq!(book.magazine_left, 0);
}

#[test]
fn a_coordinated_battery_opens_every_chosen_row_it_can() {
    let mut book: EngagementBook<f64> = EngagementBook::new(3, 10);
    book.open(5, None);
    // row 0: dead airframe; row 1: already engaged; rows 2 and 3 open; row 4 finds the
    // channels full
    let alive = [true, false, true, true, true, true];
    let opened = book.open_chosen(true, &[1, 5, 2, 3, 4], &[None, None, None, Some(9.0), None], &alive);
    assert_eq!(opened, vec![false, false, true, true, false]);
    let targets: Vec<usize> = book.engagements.iter().map(|e| e.target).collect();
    assert_eq!(targets, vec![5, 2, 3]);
    assert_eq!(book.engagements[2].resolves_at_s, Some(9.0));
    assert_eq!(book.magazine_left, 7);
}

#[test]
fn a_reloading_coordinated_battery_opens_no_row() {
    let mut book: EngagementBook<f64> = EngagementBook::new(2, 0);
    let opened = book.open_chosen(false, &[0, 1], &[None, None], &[true, true]);
    assert_eq!(opened, vec![false, false]);
    assert!(book.engagements.is_empty());
}

#[test]
fn only_a_self_cueing_batterys_own_sensor_is_organic() {
    let seen = BTreeMap::from([(7usize, 104.0f64), (2, 101.0)]);
    assert_eq!(own_sensor_seen(true, Some(7), &seen), Some(104.0), "reads its own sensor");
    assert_eq!(
        own_sensor_seen(true, Some(7), &BTreeMap::from([(2usize, 101.0f64)])),
        None,
        "another sensor's acquisition is not organic"
    );
    assert_eq!(own_sensor_seen(false, Some(7), &seen), None, "self-cue off means no organic route");
    assert_eq!(own_sensor_seen(true, None, &seen), None, "no organic sensor, no organic route");
}
